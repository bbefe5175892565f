//! Replacing a substring in the value of a tag.
//!
//! Values are byte strings that hold UTF-8 text. A substring that is itself
//! UTF-8 text can only be found where a character starts, so the search goes
//! byte by byte.

use vstd::prelude::*;

verus! {

/// `byte` goes on with a character that an earlier byte began.
pub open spec fn continues_char(byte: u8) -> bool {
    128 <= byte < 192
}

/// `text` opens with `find`.
pub open spec fn starts_with(text: Seq<u8>, find: Seq<u8>) -> bool {
    find.len() <= text.len() && text.take(find.len() as int) =~= find
}

/// `text` with `with` put in after each of its characters.
pub open spec fn followed_each(text: Seq<u8>, with: Seq<u8>) -> Seq<u8>
    decreases text.len(),
{
    if text.len() == 0 {
        Seq::empty()
    } else if text.len() > 1 && continues_char(text[1]) {
        seq![text[0]] + followed_each(text.skip(1), with)
    } else {
        seq![text[0]] + with + followed_each(text.skip(1), with)
    }
}

/// `text` with every occurrence of `find` replaced by `with`. Occurrences are
/// taken from the left and do not overlap: the search goes on behind each one
/// found. The empty string occurs before every character and at the end.
pub open spec fn replaced(text: Seq<u8>, find: Seq<u8>, with: Seq<u8>) -> Seq<u8>
    decreases text.len(),
{
    if find.len() == 0 {
        with + followed_each(text, with)
    } else if text.len() == 0 {
        Seq::empty()
    } else if starts_with(text, find) {
        with + replaced(text.skip(find.len() as int), find, with)
    } else {
        seq![text[0]] + replaced(text.skip(1), find, with)
    }
}

/// Adds `bytes` to the end of `out`.
fn append(out: &mut Vec<u8>, bytes: &[u8])
    ensures
        final(out)@ == old(out)@ + bytes@,
{
    let mut i: usize = 0;
    while i < bytes.len()
        invariant
            0 <= i <= bytes@.len(),
            out@ == old(out)@ + bytes@.take(i as int),
        decreases bytes@.len() - i,
    {
        out.push(bytes[i]);
        assert(bytes@.take(i + 1) =~= bytes@.take(i as int).push(bytes@[i as int]));
        i += 1;
    }
    assert(bytes@.take(i as int) =~= bytes@);
}

/// Whether `find` stands in `text` at position `at`.
fn occurs_at(text: &[u8], at: usize, find: &[u8]) -> (found: bool)
    requires
        at <= text@.len(),
    ensures
        found == starts_with(text@.skip(at as int), find@),
{
    if find.len() > text.len() - at {
        return false;
    }
    let ghost rest = text@.skip(at as int);
    let mut i: usize = 0;
    while i < find.len()
        invariant
            0 <= i <= find@.len(),
            at + find@.len() <= text@.len() <= usize::MAX,
            rest == text@.skip(at as int),
            rest.take(i as int) =~= find@.take(i as int),
        decreases find@.len() - i,
    {
        if text[at + i] != find[i] {
            assert(rest.take(find@.len() as int)[i as int] != find@[i as int]);
            return false;
        }
        assert(rest.take(i + 1) =~= rest.take(i as int).push(rest[i as int]));
        assert(find@.take(i + 1) =~= find@.take(i as int).push(find@[i as int]));
        i += 1;
    }
    assert(find@.take(i as int) =~= find@);
    true
}

/// Replaces every occurrence of `find` in `text` by `with`.
///
/// Occurrences are taken from the left and do not overlap. With an empty
/// `find`, `with` is put before every character of `text` and at its end.
pub fn replace_all(text: &[u8], find: &[u8], with: &[u8]) -> (out: Vec<u8>)
    ensures
        out@ == replaced(text@, find@, with@),
{
    let mut out: Vec<u8> = Vec::new();
    let len = text.len();
    let mut i: usize = 0;
    if find.len() == 0 {
        append(&mut out, with);
        assert(text@.skip(0) =~= text@);
        assert(out@ =~= with@);
        while i < len
            invariant
                len == text@.len(),
                find@.len() == 0,
                0 <= i <= len,
                out@ + followed_each(text@.skip(i as int), with@) == replaced(text@, find@, with@),
            decreases len - i,
        {
            let ghost rest = text@.skip(i as int);
            let ghost done = out@;
            out.push(text[i]);
            if i + 1 == len || !(text[i + 1] >= 128 && text[i + 1] < 192) {
                append(&mut out, with);
            }
            proof {
                assert(rest.skip(1) =~= text@.skip(i + 1));
                assert(rest[0] == text@[i as int]);
                if rest.len() > 1 {
                    assert(rest[1] == text@[i + 1]);
                }
                assert(out@ + followed_each(rest.skip(1), with@) =~= done + followed_each(
                    rest,
                    with@,
                ));
            }
            i += 1;
        }
        assert(followed_each(text@.skip(len as int), with@) =~= Seq::<u8>::empty());
        assert(out@ + Seq::<u8>::empty() =~= out@);
    } else {
        assert(text@.skip(0) =~= text@);
        assert(out@ + replaced(text@, find@, with@) =~= replaced(text@, find@, with@));
        while i < len
            invariant
                len == text@.len(),
                find@.len() > 0,
                0 <= i <= len,
                out@ + replaced(text@.skip(i as int), find@, with@) == replaced(
                    text@,
                    find@,
                    with@,
                ),
            decreases len - i,
        {
            let ghost rest = text@.skip(i as int);
            let ghost done = out@;
            if occurs_at(text, i, find) {
                append(&mut out, with);
                proof {
                    assert(rest.skip(find@.len() as int) =~= text@.skip(i + find@.len()));
                    assert(out@ + replaced(rest.skip(find@.len() as int), find@, with@) =~= done
                        + replaced(rest, find@, with@));
                }
                i += find.len();
            } else {
                out.push(text[i]);
                proof {
                    assert(rest.skip(1) =~= text@.skip(i + 1));
                    assert(rest[0] == text@[i as int]);
                    assert(out@ + replaced(rest.skip(1), find@, with@) =~= done + replaced(
                        rest,
                        find@,
                        with@,
                    ));
                }
                i += 1;
            }
        }
        assert(replaced(text@.skip(len as int), find@, with@) =~= Seq::<u8>::empty());
        assert(out@ + Seq::<u8>::empty() =~= out@);
    }
    out
}

} // verus!
