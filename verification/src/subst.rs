//! Back-reference substitution: deriving a concrete pattern from a pattern
//! that holds `\1`-style placeholders and a snapshot of earlier captures.
//! The derived pattern splices in the captured text with every byte that is
//! not ASCII-alphanumeric (and not part of a multi-byte character) escaped.

use vstd::prelude::*;

verus! {

/// A byte that may stand unescaped inside the spliced-in captured text:
/// ASCII letters and digits, and bytes of multi-byte UTF-8 characters.
pub open spec fn spec_plain_byte(c: u8) -> bool {
    (48 <= c <= 57) || (65 <= c <= 90) || (97 <= c <= 122) || c >= 128
}

/// Captured text with regex metacharacters disarmed: every byte that is not
/// plain gets a backslash in front of it.
pub open spec fn spec_escaped(b: Seq<u8>) -> Seq<u8>
    decreases b.len(),
{
    if b.len() == 0 {
        Seq::empty()
    } else {
        spec_escaped(b.drop_last()) + (if spec_plain_byte(b.last()) {
            seq![b.last()]
        } else {
            seq![92u8, b.last()]
        })
    }
}

/// What a `\d` placeholder stands for: the escaped text of capture group `d`
/// in the snapshot, or nothing when the group did not match or its recorded
/// range does not fit the snapshot line.
pub open spec fn spec_backref_text(
    d: int,
    regions: Seq<Option<(usize, usize)>>,
    line: Seq<u8>,
) -> Seq<u8> {
    if 0 <= d < regions.len() && (regions[d] matches Some(p) && p.0 <= p.1 && p.1 <= line.len()) {
        spec_escaped(line.subrange(regions[d]->Some_0.0 as int, regions[d]->Some_0.1 as int))
    } else {
        Seq::empty()
    }
}

/// The tail of the substituted pattern, from position `i` of `pat` on, with
/// `esc` telling whether the byte before position `i` was an unconsumed
/// backslash. A backslash followed by a digit becomes the escaped captured
/// text of that group; any other escaped byte is kept with its backslash.
pub open spec fn spec_subst_from(
    pat: Seq<u8>,
    i: int,
    esc: bool,
    regions: Seq<Option<(usize, usize)>>,
    line: Seq<u8>,
) -> Seq<u8>
    decreases pat.len() - i,
{
    if i < 0 || i >= pat.len() {
        Seq::empty()
    } else {
        let c = pat[i];
        let rest = spec_subst_from(pat, i + 1, c == 92 && !esc, regions, line);
        if esc && 48 <= c <= 57 {
            spec_backref_text(c - 48, regions, line) + rest
        } else if esc {
            seq![92u8, c] + rest
        } else if c != 92 {
            seq![c] + rest
        } else {
            rest
        }
    }
}

/// The fully substituted pattern.
pub open spec fn spec_substituted(
    pat: Seq<u8>,
    regions: Seq<Option<(usize, usize)>>,
    line: Seq<u8>,
) -> Seq<u8> {
    spec_subst_from(pat, 0, false, regions, line)
}

/// Appends `spec_escaped` of `line[from..to]` to `out`.
fn push_escaped(out: &mut Vec<u8>, line: &Vec<u8>, from: usize, to: usize)
    requires
        from <= to <= line@.len(),
    ensures
        final(out)@ == old(out)@ + spec_escaped(line@.subrange(from as int, to as int)),
{
    let ghost whole = line@.subrange(from as int, to as int);
    let mut j: usize = from;
    while j < to
        invariant
            from <= j <= to <= line@.len(),
            whole == line@.subrange(from as int, to as int),
            out@ == old(out)@ + spec_escaped(line@.subrange(from as int, j as int)),
        decreases to - j,
    {
        let c = line[j];
        let plain = (48 <= c && c <= 57) || (65 <= c && c <= 90) || (97 <= c && c <= 122) || c
            >= 128;
        if !plain {
            out.push(92u8);
        }
        out.push(c);
        proof {
            let pre = line@.subrange(from as int, j as int);
            let post = line@.subrange(from as int, j + 1 as int);
            assert(post.drop_last() =~= pre);
            assert(post.last() == line@[j as int]);
        }
        j = j + 1;
    }
    proof {
        assert(line@.subrange(from as int, j as int) =~= whole);
    }
}

/// Builds the derived pattern: scans `pat` for backslash-digit placeholders
/// and splices in the escaped captured text from the snapshot.
pub fn substituted_pattern(
    pat: &Vec<u8>,
    regions: &Vec<Option<(usize, usize)>>,
    line: &Vec<u8>,
) -> (r: Vec<u8>)
    ensures
        r@ == spec_substituted(pat@, regions@, line@),
{
    let mut out: Vec<u8> = Vec::new();
    let mut esc: bool = false;
    let mut i: usize = 0;
    while i < pat.len()
        invariant
            0 <= i <= pat@.len(),
            spec_substituted(pat@, regions@, line@) == out@ + spec_subst_from(
                pat@,
                i as int,
                esc,
                regions@,
                line@,
            ),
        decreases pat@.len() - i,
    {
        let c = pat[i];
        if esc && 48 <= c && c <= 57 {
            let d = (c - 48) as usize;
            if d < regions.len() {
                match regions[d] {
                    Some(p) => {
                        if p.0 <= p.1 && p.1 <= line.len() {
                            push_escaped(&mut out, line, p.0, p.1);
                        }
                    },
                    None => {},
                }
            }
        } else if esc {
            out.push(92u8);
            out.push(c);
        } else if c != 92 {
            out.push(c);
        }
        esc = c == 92 && !esc;
        i = i + 1;
    }
    out
}

} // verus!
