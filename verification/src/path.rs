//! Path strings: the slash-separated segments that address a node.

use vstd::prelude::*;
use vstd::string::StrSliceExecFns;

verus! {

/// The tokens of `text`, split at every slash. A text without a slash is
/// one token; a slash at either end, or two in a row, leave an empty token.
pub open spec fn tokens(text: Seq<char>) -> Seq<Seq<char>>
    decreases text.len(),
{
    if text.len() == 0 {
        seq![Seq::empty()]
    } else {
        let before = tokens(text.drop_last());
        if text.last() == '/' {
            before.push(Seq::empty())
        } else {
            before.drop_last().push(before.last().push(text.last()))
        }
    }
}

/// The tokens among `tokens` that are not empty, in their order.
pub open spec fn non_empty(tokens: Seq<Seq<char>>) -> Seq<Seq<char>> {
    tokens.filter(|token: Seq<char>| token.len() > 0)
}

/// The segments of the path `text`: its non-empty tokens, in their order.
pub open spec fn segments(text: Seq<char>) -> Seq<Seq<char>> {
    non_empty(tokens(text))
}

/// Appending a token to a sequence of tokens appends it to the non-empty
/// ones if it is not empty, and leaves them as they are if it is.
pub proof fn lemma_non_empty_push(tokens: Seq<Seq<char>>, token: Seq<char>)
    ensures
        non_empty(tokens.push(token)) == if token.len() > 0 {
            non_empty(tokens).push(token)
        } else {
            non_empty(tokens)
        },
{
    reveal(Seq::filter);
    assert(tokens.push(token).drop_last() == tokens);
}

/// The text that `tokens` make when a slash is put between each two of them.
pub open spec fn joined(tokens: Seq<Seq<char>>) -> Seq<char>
    decreases tokens.len(),
{
    if tokens.len() == 0 {
        Seq::empty()
    } else if tokens.len() == 1 {
        tokens[0]
    } else {
        joined(tokens.drop_last()).push('/') + tokens.last()
    }
}

/// Splitting loses nothing: a text has at least one token, and its tokens,
/// joined by slashes, make the text again.
pub proof fn lemma_tokens_rejoin(text: Seq<char>)
    ensures
        tokens(text).len() >= 1,
        joined(tokens(text)) == text,
    decreases text.len(),
{
    if text.len() > 0 {
        let before = tokens(text.drop_last());
        lemma_tokens_rejoin(text.drop_last());
        assert(text.drop_last().push(text.last()) == text);
        if text.last() == '/' {
            assert(before.push(Seq::empty()).drop_last() == before);
            assert(joined(before).push('/') + Seq::<char>::empty() == joined(before).push('/'));
        } else {
            let grown = before.last().push(text.last());
            let after = before.drop_last().push(grown);
            if before.len() > 1 {
                assert(after.drop_last() == before.drop_last());
                assert(joined(before.drop_last()).push('/') + grown == (joined(
                    before.drop_last(),
                ).push('/') + before.last()).push(text.last()));
            }
        }
    }
}

/// No token holds a slash.
pub proof fn lemma_tokens_hold_no_slash(text: Seq<char>)
    ensures
        forall|i: int| 0 <= i < tokens(text).len() ==> !(#[trigger] tokens(text)[i]).contains('/'),
    decreases text.len(),
{
    if text.len() > 0 {
        let before = tokens(text.drop_last());
        lemma_tokens_hold_no_slash(text.drop_last());
        lemma_tokens_rejoin(text.drop_last());
        if text.last() != '/' {
            let grown = before.last().push(text.last());
            assert forall|j: int| 0 <= j < grown.len() implies grown[j] != '/' by {
                if j < before.last().len() {
                    assert(before.last().contains(before.last()[j]));
                }
            }
        }
    }
}

/// No segment is empty, and none holds a slash.
pub proof fn lemma_segments_are_names(text: Seq<char>)
    ensures
        forall|i: int|
            0 <= i < segments(text).len() ==> (#[trigger] segments(text)[i]).len() > 0
                && !segments(text)[i].contains('/'),
{
    let all = tokens(text);
    let keep = |token: Seq<char>| token.len() > 0;
    lemma_tokens_hold_no_slash(text);
    assert forall|i: int| 0 <= i < segments(text).len() implies (#[trigger] segments(text)[i]).len()
        > 0 && !segments(text)[i].contains('/') by {
        let segment = all.filter(keep)[i];
        all.lemma_filter_pred(keep, i);
        all.lemma_filter_contains_rev(keep, segment);
    }
}

/// One slash in front of a path changes nothing: the empty token that it
/// leaves is dropped.
pub proof fn lemma_leading_slash_is_optional(text: Seq<char>)
    ensures
        segments(seq!['/'] + text) == segments(text),
{
    lemma_tokens_after_slash(text);
    reveal(Seq::filter);
    Seq::filter_distributes_over_add(
        seq![Seq::<char>::empty()],
        tokens(text),
        |token: Seq<char>| token.len() > 0,
    );
    lemma_non_empty_push(Seq::empty(), Seq::empty());
    assert(Seq::<Seq<char>>::empty().push(Seq::empty()) == seq![Seq::<char>::empty()]);
    assert(non_empty(seq![Seq::<char>::empty()]) == Seq::<Seq<char>>::empty());
    assert(Seq::<Seq<char>>::empty() + non_empty(tokens(text)) == non_empty(tokens(text)));
}

/// A slash in front of a text puts an empty token in front of its tokens.
proof fn lemma_tokens_after_slash(text: Seq<char>)
    ensures
        tokens(seq!['/'] + text) == seq![Seq::<char>::empty()] + tokens(text),
    decreases text.len(),
{
    let slash = seq!['/'];
    let whole = slash + text;
    if text.len() == 0 {
        assert(whole.drop_last() == Seq::<char>::empty());
        assert(tokens(whole.drop_last()) == seq![Seq::<char>::empty()]);
        assert(tokens(whole) == seq![Seq::<char>::empty()].push(Seq::empty()));
        assert(tokens(whole) == seq![Seq::<char>::empty()] + tokens(text));
    } else {
        lemma_tokens_after_slash(text.drop_last());
        lemma_tokens_rejoin(text.drop_last());
        assert(whole.drop_last() == slash + text.drop_last());
        let before = tokens(text.drop_last());
        let shifted = seq![Seq::<char>::empty()] + before;
        if text.last() == '/' {
            assert(shifted.push(Seq::empty()) == seq![Seq::<char>::empty()] + before.push(
                Seq::empty(),
            ));
        } else {
            assert(shifted.drop_last() == seq![Seq::<char>::empty()] + before.drop_last());
            assert(shifted.drop_last().push(shifted.last().push(text.last())) == seq![
                Seq::<char>::empty(),
            ] + before.drop_last().push(before.last().push(text.last())));
        }
    }
}

/// Splits `path` into its segments. Every string is a path; one without a
/// segment addresses the root.
pub fn resolve(path: &str) -> (parts: Vec<String>)
    ensures
        parts.deep_view() == segments(path@),
        forall|i: int| 0 <= i < parts.len() ==> parts[i]@.len() > 0 && !parts[i]@.contains('/'),
{
    let total = path.unicode_len();
    let mut parts: Vec<String> = Vec::new();
    let mut start: usize = 0;
    let mut i: usize = 0;
    let ghost done: Seq<Seq<char>> = Seq::empty();
    proof {
        reveal(Seq::filter);
        assert(path@.take(0) == Seq::<char>::empty());
        assert(path@.subrange(0, 0) == Seq::<char>::empty());
        assert(tokens(path@.take(0)) == done.push(path@.subrange(0, 0)));
        assert(parts.deep_view() == non_empty(done));
    }
    for c in it: path.chars()
        invariant
            total == path@.len(),
            it.seq() == path@,
            i == it.index(),
            start <= i <= total,
            tokens(path@.take(i as int)) == done.push(path@.subrange(start as int, i as int)),
            parts.deep_view() == non_empty(done),
    {
        let ghost token = path@.subrange(start as int, i as int);
        proof {
            assert(path@.take(i + 1).drop_last() == path@.take(i as int));
            assert(path@.take(i + 1).last() == c);
            assert(done.push(token).drop_last() == done);
        }
        if c == '/' {
            if start < i {
                let part = path.substring_char(start, i).to_owned();
                let ghost before = parts.deep_view();
                parts.push(part);
                assert(parts.deep_view() == before.push(token));
            }
            proof {
                lemma_non_empty_push(done, token);
                done = done.push(token);
                assert(path@.subrange(i + 1, i + 1) == Seq::<char>::empty());
            }
            start = i + 1;
        } else {
            assert(token.push(c) == path@.subrange(start as int, i + 1));
        }
        i += 1;
    }
    let ghost token = path@.subrange(start as int, i as int);
    proof {
        assert(path@.take(i as int) == path@);
        lemma_non_empty_push(done, token);
    }
    if start < i {
        let part = path.substring_char(start, i).to_owned();
        let ghost before = parts.deep_view();
        parts.push(part);
        assert(parts.deep_view() == before.push(token));
    }
    proof {
        lemma_segments_are_names(path@);
        assert forall|i: int| 0 <= i < parts.len() implies parts[i]@.len() > 0
            && !parts[i]@.contains('/') by {
            assert(parts[i]@ == segments(path@)[i]);
        }
    }
    parts
}

} // verus!
