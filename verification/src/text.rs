//! Replacing every occurrence of one string within another.
use vstd::prelude::*;

verus! {

/// `text` with `with` before each character and once more at the end.
pub open spec fn interleaved(text: Seq<char>, with: Seq<char>) -> Seq<char>
    decreases text.len(),
{
    if text.len() == 0 {
        with
    } else {
        with + seq![text[0]] + interleaved(text.skip(1), with)
    }
}

/// `text` with every occurrence of `from` replaced by `to`.
///
/// Occurrences are taken from the left and do not overlap. The empty string occurs around every
/// character.
pub open spec fn replaced(text: Seq<char>, from: Seq<char>, to: Seq<char>) -> Seq<char>
    decreases text.len(),
{
    if from.len() == 0 {
        interleaved(text, to)
    } else if text.len() < from.len() {
        text
    } else if text.take(from.len() as int) == from {
        to + replaced(text.skip(from.len() as int), from, to)
    } else {
        seq![text[0]] + replaced(text.skip(1), from, to)
    }
}

/// Replaces every occurrence of `from` in `text` by `to`.
pub fn replace(text: &str, from: &str, to: &str) -> (result: String)
    ensures
        result@ == replaced(text@, from@, to@),
{
    let text_len: usize = text.unicode_len();
    let from_len: usize = from.unicode_len();
    let pattern: String = from.to_owned();
    let mut out: String = String::new();
    let mut at: usize = 0;
    assert(text@.skip(0) == text@);
    if from_len == 0 {
        while at < text_len
            invariant
                at <= text_len,
                text_len == text@.len(),
                interleaved(text@, to@) == out@ + interleaved(text@.skip(at as int), to@),
            decreases text_len - at,
        {
            let ghost before = out@;
            let ghost rest = text@.skip(at as int);
            out.append(to);
            out.append(text.substring_char(at, at + 1));
            assert(rest.skip(1) == text@.skip(at + 1));
            assert(out@ == before + to@ + seq![rest[0]]);
            assert(out@ + interleaved(rest.skip(1), to@) == before + interleaved(rest, to@));
            at = at + 1;
        }
        out.append(to);
        assert(text@.skip(at as int).len() == 0);
        return out;
    }
    while at < text_len
        invariant
            at <= text_len,
            text_len == text@.len(),
            from_len == from@.len(),
            from_len > 0,
            pattern@ == from@,
            replaced(text@, from@, to@) == out@ + replaced(text@.skip(at as int), from@, to@),
        decreases text_len - at,
    {
        let ghost before = out@;
        let ghost rest = text@.skip(at as int);
        if text_len - at < from_len {
            out.append(text.substring_char(at, text_len));
            assert(text@.subrange(at as int, text_len as int) == rest);
            assert(out@ == before + rest);
            assert(replaced(rest, from@, to@) == rest);
            return out;
        }
        let window: String = text.substring_char(at, at + from_len).to_owned();
        assert(window@ == rest.take(from_len as int));
        if window == pattern {
            out.append(to);
            assert(rest.skip(from_len as int) == text@.skip(at + from_len));
            assert(out@ + replaced(rest.skip(from_len as int), from@, to@) == before + replaced(
                rest,
                from@,
                to@,
            ));
            at = at + from_len;
        } else {
            out.append(text.substring_char(at, at + 1));
            assert(rest.skip(1) == text@.skip(at + 1));
            assert(out@ == before + seq![rest[0]]);
            assert(out@ + replaced(rest.skip(1), from@, to@) == before + replaced(
                rest,
                from@,
                to@,
            ));
            at = at + 1;
        }
    }
    assert(text@.skip(at as int).len() == 0);
    assert(replaced(text@.skip(at as int), from@, to@) == Seq::<char>::empty());
    assert(out@ + Seq::<char>::empty() == out@);
    out
}

} // verus!
