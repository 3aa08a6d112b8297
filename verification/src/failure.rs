//! Failures, told as a chain of messages from the outermost context to the
//! cause.

use vstd::prelude::*;

use crate::text::{copy_texts, join, joined, texts};

verus! {

/// Why something failed. Its view is the chain of messages, what was being done
/// first and the cause last.
#[derive(Debug, PartialEq, Eq)]
pub struct Failure {
    pub chain: Vec<String>,
}

impl View for Failure {
    type V = Seq<Seq<char>>;

    open spec fn view(&self) -> Seq<Seq<char>> {
        texts(self.chain@)
    }
}

/// The failure `cause`, put into the context of what was being done.
pub open spec fn in_context(context: Seq<char>, cause: Seq<Seq<char>>) -> Seq<Seq<char>> {
    seq![context] + cause
}

/// The outermost message of a chain.
pub open spec fn headline_of(chain: Seq<Seq<char>>) -> Seq<char> {
    if chain.len() == 0 {
        Seq::empty()
    } else {
        chain[0]
    }
}

impl Clone for Failure {
    fn clone(&self) -> (r: Failure)
        ensures
            r@ == self@,
    {
        Failure { chain: copy_texts(&self.chain) }
    }
}

impl Failure {
    /// A failure with one message.
    pub fn new(message: String) -> (r: Failure)
        ensures
            r@ == seq![message@],
    {
        let mut chain: Vec<String> = Vec::new();
        chain.push(message);
        let failure = Failure { chain };
        assert(failure@ == seq![message@]);
        failure
    }

    /// A failure with one fixed message.
    pub fn say(message: &str) -> (r: Failure)
        ensures
            r@ == seq![message@],
    {
        Failure::new(message.to_string())
    }

    /// This failure, put into the context of what was being done.
    pub fn context(self, message: String) -> (r: Failure)
        ensures
            r@ == in_context(message@, self@),
    {
        let mut chain: Vec<String> = Vec::new();
        chain.push(message);
        let mut rest = self.chain;
        let ghost tail = rest@;
        chain.append(&mut rest);
        let failure = Failure { chain };
        assert(failure@ == in_context(message@, texts(tail)));
        failure
    }

    /// The outermost message.
    pub fn headline(&self) -> (r: String)
        ensures
            r@ == headline_of(self@),
    {
        if self.chain.len() == 0 {
            let empty = String::new();
            assert(empty@ == Seq::<char>::empty());
            empty
        } else {
            self.chain[0].clone()
        }
    }

    /// The whole chain on one line, `: ` between the messages.
    pub fn full(&self) -> (r: String)
        ensures
            r@ == joined(self@, ": "@),
    {
        join(&self.chain, ": ")
    }
}

/// A failure in a context tells that context first and then all that the cause
/// told, in the same order.
pub proof fn law_contexts_come_first(context: Seq<char>, cause: Seq<Seq<char>>, i: int)
    ensures
        in_context(context, cause).len() == cause.len() + 1,
        in_context(context, cause)[0] == context,
        0 <= i < cause.len() ==> in_context(context, cause)[i + 1] == cause[i],
        headline_of(in_context(context, cause)) == context,
        cause.len() > 0 ==> headline_of(cause) == cause[0],
        cause.len() == 0 ==> headline_of(cause).len() == 0,
{
}

/// Whether a chain of messages puts `cause` into some context and leaves it whole.
pub open spec fn tells(chain: Seq<Seq<char>>, cause: Seq<Seq<char>>) -> bool {
    chain.len() == cause.len() + 1 && forall|i: int|
        0 <= i < cause.len() ==> chain[i + 1] == #[trigger] cause[i]
}

} // verus!
