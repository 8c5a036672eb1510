//! Next-token examples: turning a stream of token IDs into training data.
//!
//! A window of `T + 1` consecutive tokens is read twice: its first `T`
//! tokens are the inputs, its last `T` the targets, so `targets[i]` is the
//! token that followed `inputs[i]`. A sequence of `N` tokens has
//! `max(N - T, 0)` such windows, one per start position. The token stream is
//! split into a training and a validation portion before windows are built,
//! so that no example crosses the boundary.

use std::ops::Range;

use vstd::prelude::*;
use vstd::slice::slice_subrange;

use crate::describe::{decimal, push_decimal};
use crate::tokenizer::TokenId;

verus! {

/// The number of next-token examples of context length `context_len` in a
/// sequence of `len` tokens: `max(len - context_len, 0)`.
pub open spec fn window_count(len: nat, context_len: nat) -> nat {
    if len > context_len {
        (len - context_len) as nat
    } else {
        0
    }
}

/// The `context_len + 1` source tokens read by the example that starts at
/// position `start`.
pub open spec fn window_at(tokens: Seq<TokenId>, context_len: nat, start: int) -> Seq<TokenId> {
    tokens.subrange(start, start + context_len + 1)
}

/// Every example window of `tokens`, in ascending order of start position.
pub open spec fn all_windows(tokens: Seq<TokenId>, context_len: nat) -> Seq<Seq<TokenId>> {
    Seq::new(window_count(tokens.len(), context_len), |start: int| window_at(tokens, context_len, start))
}

/// There is one example per start position from `0` up to `N - T - 1`:
/// exactly `N - T` examples when the sequence has more than `T` tokens and
/// none otherwise, and the example at `start` reads the `T + 1` tokens
/// `tokens[start..start+T+1]`.
pub proof fn lemma_one_example_per_valid_start(tokens: Seq<TokenId>, context_len: nat)
    ensures
        tokens.len() > context_len ==> all_windows(tokens, context_len).len() == tokens.len() - context_len,
        tokens.len() <= context_len ==> all_windows(tokens, context_len).len() == 0,
        forall|start: int| 0 <= start < all_windows(tokens, context_len).len() ==> {
            &&& start + context_len + 1 <= tokens.len()
            &&& (#[trigger] all_windows(tokens, context_len)[start]).len() == context_len + 1
            &&& forall|i: int| 0 <= i <= context_len ==> all_windows(tokens, context_len)[start][i]
                == tokens[start + i]
        },
{
}

/// Within every example, the target at index `i` is the source token right
/// after the input at index `i`: the example starting at `start` has inputs
/// `tokens[start..start+T]` and targets `tokens[start+1..start+T+1]`, all in
/// bounds; when there are examples, the last one ends on the last token.
pub proof fn lemma_targets_follow_inputs(tokens: Seq<TokenId>, context_len: nat, start: int)
    requires
        context_len >= 1,
        0 <= start < window_count(tokens.len(), context_len),
    ensures
        start + context_len + 1 <= tokens.len(),
        window_at(tokens, context_len, start).len() == context_len + 1,
        window_at(tokens, context_len, start).drop_last() == tokens.subrange(start, start + context_len),
        window_at(tokens, context_len, start).drop_first() == tokens.subrange(start + 1, start + context_len + 1),
        forall|i: int| 0 <= i < context_len ==> {
            &&& #[trigger] window_at(tokens, context_len, start).drop_last()[i] == tokens[start + i]
            &&& window_at(tokens, context_len, start).drop_first()[i] == tokens[start + i + 1]
        },
        start == window_count(tokens.len(), context_len) - 1 ==> window_at(tokens, context_len, start).last()
            == tokens.last(),
{
    let window = window_at(tokens, context_len, start);
    assert(window.drop_last() =~= tokens.subrange(start, start + context_len));
    assert(window.drop_first() =~= tokens.subrange(start + 1, start + context_len + 1));
}

/// Splitting first and windowing each portion separately keeps the portions
/// apart: every example built from the training portion `tokens[..train_len]`
/// is the example of the whole sequence at the same start and reads only
/// positions below `train_len`; every example built from the validation
/// portion is the example of the whole sequence shifted by `train_len` and
/// reads only positions from `train_len` on. No example crosses the cut.
pub proof fn lemma_split_windows_stay_in_portion(tokens: Seq<TokenId>, train_len: nat, context_len: nat)
    requires
        train_len <= tokens.len(),
        context_len >= 1,
    ensures
        forall|start: int| 0 <= start < window_count(train_len, context_len) ==> {
            &&& #[trigger] all_windows(tokens.take(train_len as int), context_len)[start]
                == window_at(tokens, context_len, start)
            &&& start + context_len + 1 <= train_len
        },
        forall|start: int| 0 <= start < window_count((tokens.len() - train_len) as nat, context_len) ==> {
            &&& #[trigger] all_windows(tokens.skip(train_len as int), context_len)[start]
                == window_at(tokens, context_len, train_len + start)
            &&& train_len <= train_len + start
            &&& train_len + start + context_len + 1 <= tokens.len()
        },
{
    let train = tokens.take(train_len as int);
    let validation = tokens.skip(train_len as int);
    assert forall|start: int| 0 <= start < window_count(train_len, context_len) implies {
        &&& #[trigger] all_windows(train, context_len)[start] == window_at(tokens, context_len, start)
        &&& start + context_len + 1 <= train_len
    } by {
        assert(window_at(train, context_len, start) =~= window_at(tokens, context_len, start));
    }
    assert forall|start: int| 0 <= start < window_count((tokens.len() - train_len) as nat, context_len) implies {
        &&& #[trigger] all_windows(validation, context_len)[start] == window_at(tokens, context_len, train_len + start)
        &&& train_len <= train_len + start
        &&& train_len + start + context_len + 1 <= tokens.len()
    } by {
        assert(window_at(validation, context_len, start) =~= window_at(tokens, context_len, train_len + start));
    }
}

/// A problem with the arguments passed to [`split_tokens`] or
/// [`next_token_windows`]: only arguments that can never describe valid data.
#[derive(Debug, Clone, Copy, PartialEq, Eq)]
pub enum DataError {
    /// [`split_tokens`] was asked for more training tokens than the sequence
    /// contains.
    SplitOutOfBounds {
        /// The requested number of training tokens.
        train_len: usize,
        /// The length of the sequence that was to be split.
        len: usize,
    },
    /// [`next_token_windows`] was asked for a context length of zero.
    ZeroContextLength,
}

impl DataError {
    /// Describes the error in words, with the numbers involved.
    pub fn message(&self) -> (message: String)
        ensures
            message@ == match *self {
                DataError::SplitOutOfBounds { train_len, len } => "cannot take "@ + decimal(
                    train_len as nat,
                ) + " training tokens from a sequence of "@ + decimal(len as nat)
                    + " (the split point must be at most "@ + decimal(len as nat) + ")"@,
                DataError::ZeroContextLength => "context length must be at least 1 token, but was 0"@,
            },
    {
        let mut message = String::new();
        match self {
            DataError::SplitOutOfBounds { train_len, len } => {
                message.append("cannot take ");
                push_decimal(&mut message, *train_len);
                message.append(" training tokens from a sequence of ");
                push_decimal(&mut message, *len);
                message.append(" (the split point must be at most ");
                push_decimal(&mut message, *len);
                message.append(")");
            },
            DataError::ZeroContextLength => {
                message.append("context length must be at least 1 token, but was 0");
            },
        }
        message
    }
}

/// A token sequence cut into a training portion followed by a validation
/// portion; both borrow from the sequence that was split.
#[derive(Debug, Clone, Copy, PartialEq, Eq)]
pub struct Split<'a> {
    /// `tokens[..train_len]`: the tokens training examples are built from.
    pub train: &'a [TokenId],
    /// `tokens[train_len..]`: the held-out tokens, used only to evaluate.
    pub validation: &'a [TokenId],
}

/// Cuts `tokens` into a training portion of exactly `train_len` tokens and a
/// validation portion of the rest. Both ends are valid split points.
pub fn split_tokens(tokens: &[TokenId], train_len: usize) -> (res: Result<Split<'_>, DataError>)
    ensures
        match res {
            Ok(split) => {
                &&& train_len <= tokens@.len()
                &&& split.train@ == tokens@.take(train_len as int)
                &&& split.validation@ == tokens@.skip(train_len as int)
                &&& split.train@ + split.validation@ == tokens@
            },
            Err(error) => {
                &&& train_len > tokens@.len()
                &&& error == DataError::SplitOutOfBounds { train_len, len: tokens@.len() as usize }
            },
        },
{
    let len = tokens.len();
    if train_len <= len {
        let train = slice_subrange(tokens, 0, train_len);
        let validation = slice_subrange(tokens, train_len, len);
        proof {
            assert(train@ + validation@ =~= tokens@);
        }
        Ok(Split { train, validation })
    } else {
        Err(DataError::SplitOutOfBounds { train_len, len })
    }
}

/// One next-token example: `T` input tokens and, for each of them, the token
/// that followed it in the source.
#[derive(Debug, Clone, Copy, PartialEq, Eq)]
pub struct Example<'a> {
    /// Source positions `s..s+T`.
    inputs: &'a [TokenId],
    /// Source positions `s+1..s+T+1`.
    targets: &'a [TokenId],
}

impl<'a> Example<'a> {
    /// The inputs and targets have the same non-zero length and overlap in
    /// all but their first and last token.
    #[verifier::type_invariant]
    spec fn well_formed(self) -> bool {
        &&& self.inputs@.len() >= 1
        &&& self.targets@.len() == self.inputs@.len()
        &&& self.inputs@.skip(1) == self.targets@.drop_last()
    }

    /// The `T + 1` consecutive source tokens this example reads.
    pub closed spec fn window(self) -> Seq<TokenId> {
        self.inputs@.push(self.targets@.last())
    }

    /// The `T` tokens the model reads: the window without its last token.
    pub fn inputs(&self) -> (inputs: &'a [TokenId])
        ensures
            self.window().len() >= 2,
            inputs@ == self.window().drop_last(),
            inputs@.len() >= 1,
    {
        proof {
            use_type_invariant(self);
        }
        self.inputs
    }

    /// The `T` tokens the model should predict: the window without its first
    /// token, so `targets()[i]` is the answer for `inputs()[i]`.
    pub fn targets(&self) -> (targets: &'a [TokenId])
        ensures
            self.window().len() >= 2,
            targets@ == self.window().drop_first(),
            targets@.len() >= 1,
    {
        proof {
            use_type_invariant(self);
            assert(self.window().drop_first() =~= self.targets@) by {
                let n = self.inputs@.len();
                assert forall|i: int| 0 <= i < n implies #[trigger] self.window().drop_first()[i]
                    == self.targets@[i] by {
                    if i < n - 1 {
                        assert(self.inputs@.skip(1)[i] == self.targets@.drop_last()[i]);
                    }
                }
            }
        }
        self.targets
    }
}

/// The next-token examples of a slice, produced one at a time in ascending
/// order of start position, created by [`next_token_windows`].
///
/// Exhaustion is permanent, and the number of examples left is always known.
/// Cloning copies only the position, not the tokens.
#[derive(Debug)]
pub struct NextTokenWindows<'a> {
    tokens: &'a [TokenId],
    context_len: usize,
    /// Start positions not yet visited; `0..max(N - T, 0)` when created.
    starts: Range<usize>,
}

impl<'a> NextTokenWindows<'a> {
    #[verifier::type_invariant]
    spec fn well_formed(self) -> bool {
        &&& self.context_len >= 1
        &&& self.starts.end == window_count(self.tokens@.len(), self.context_len as nat)
        &&& self.starts.start <= self.starts.end
    }

    /// The tokens the examples are read from.
    pub closed spec fn source(self) -> Seq<TokenId> {
        self.tokens@
    }

    /// The context length `T` of every example.
    pub closed spec fn context(self) -> nat {
        self.context_len as nat
    }

    /// The start position of the next example.
    pub closed spec fn position(self) -> nat {
        self.starts.start as nat
    }

    /// The windows of the examples not yet produced, in order.
    pub open spec fn remaining(self) -> Seq<Seq<TokenId>> {
        all_windows(self.source(), self.context()).skip(self.position() as int)
    }

    /// Produces the example at the current position and moves one position
    /// along, or returns `None`, now and forever, once every example has been
    /// produced.
    pub fn next(&mut self) -> (example: Option<Example<'a>>)
        ensures
            old(self).context() >= 1,
            example is Some <==> old(self).position() + old(self).context() < old(self).source().len(),
            example matches Some(example) ==> example.window() == old(self).source().subrange(
                old(self).position() as int,
                (old(self).position() + old(self).context() + 1) as int,
            ),
            final(self).source() == old(self).source(),
            final(self).context() == old(self).context(),
            match example {
                Some(example) => {
                    &&& old(self).position() < window_count(old(self).source().len(), old(self).context())
                    &&& example.window() == window_at(old(self).source(), old(self).context(), old(self).position() as int)
                    &&& final(self).position() == old(self).position() + 1
                },
                None => {
                    &&& old(self).position() >= window_count(old(self).source().len(), old(self).context())
                    &&& final(self).position() == old(self).position()
                },
            },
    {
        proof {
            use_type_invariant(&*self);
        }
        if self.starts.start < self.starts.end {
            let start = self.starts.start;
            let len = self.tokens.len();
            assert(start + self.context_len < len);
            let inputs = slice_subrange(self.tokens, start, start + self.context_len);
            let targets = slice_subrange(self.tokens, start + 1, start + self.context_len + 1);
            proof {
                assert(inputs@.skip(1) =~= targets@.drop_last());
            }
            let example = Example { inputs, targets };
            proof {
                assert(example.window() =~= window_at(self.tokens@, self.context_len as nat, start as int));
            }
            self.starts = Range { start: start + 1, end: self.starts.end };
            Some(example)
        } else {
            None
        }
    }

    /// The exact number of examples not yet produced.
    pub fn len(&self) -> (count: usize)
        ensures
            self.context() >= 1,
            self.source().len() > self.context() ==> count == self.source().len() - self.context()
                - self.position(),
            self.source().len() <= self.context() ==> count == 0,
            count == window_count(self.source().len(), self.context()) - self.position(),
    {
        proof {
            use_type_invariant(self);
        }
        self.starts.end - self.starts.start
    }

    /// The bounds on the number of examples left, which are both exact.
    pub fn size_hint(&self) -> (hint: (usize, Option<usize>))
        ensures
            self.context() >= 1,
            hint.0 == window_count(self.source().len(), self.context()) - self.position(),
            hint.1 == Some(hint.0),
    {
        let count = self.len();
        (count, Some(count))
    }
}

impl<'a> Clone for NextTokenWindows<'a> {
    /// A copy that continues from the same position over the same tokens.
    fn clone(&self) -> (copy: Self)
        ensures
            copy.source() == self.source(),
            copy.context() == self.context(),
            copy.position() == self.position(),
    {
        proof {
            use_type_invariant(self);
        }
        NextTokenWindows {
            tokens: self.tokens,
            context_len: self.context_len,
            starts: Range { start: self.starts.start, end: self.starts.end },
        }
    }
}

/// Returns the examples of context length `context_len` (`T`) in `tokens`:
/// the one starting at `s` has inputs `tokens[s..s+T]` and targets
/// `tokens[s+1..s+T+1]`, for every valid `s` in ascending order, which makes
/// `max(tokens.len() - T, 0)` examples. A context length of zero is an error;
/// a sequence of `T` or fewer tokens simply has no examples.
pub fn next_token_windows(tokens: &[TokenId], context_len: usize) -> (res: Result<NextTokenWindows<'_>, DataError>)
    ensures
        match res {
            Ok(windows) => {
                &&& context_len > 0
                &&& windows.source() == tokens@
                &&& windows.context() == context_len
                &&& windows.position() == 0
                &&& windows.remaining() == all_windows(tokens@, context_len as nat)
                &&& tokens@.len() > context_len ==> windows.remaining().len() == tokens@.len() - context_len
                &&& tokens@.len() <= context_len ==> windows.remaining().len() == 0
                &&& forall|start: int| 0 <= start < windows.remaining().len() ==> #[trigger] windows.remaining()[start]
                    == tokens@.subrange(start, start + context_len + 1)
            },
            Err(error) => context_len == 0 && error == DataError::ZeroContextLength,
        },
{
    if context_len == 0 {
        return Err(DataError::ZeroContextLength);
    }
    let len = tokens.len();
    let window_count = if len > context_len {
        len - context_len
    } else {
        0
    };
    let windows = NextTokenWindows { tokens, context_len, starts: Range { start: 0, end: window_count } };
    proof {
        assert(windows.remaining() =~= all_windows(tokens@, context_len as nat));
    }
    Ok(windows)
}

} // verus!
