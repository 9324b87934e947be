use vstd::prelude::*;

verus! {

/// A token stream with pushback: a token handed back by `unsee` is the next
/// one that `next` returns, the last one handed back first.
pub struct Unsee {
    /// The tokens still to come, the next one last.
    pending: Vec<String>,
}

impl View for Unsee {
    type V = Seq<Seq<char>>;

    /// The tokens still to come, in the order `next` returns them.
    closed spec fn view(&self) -> Seq<Seq<char>> {
        let n = self.pending@.len();
        Seq::new(n, |i: int| self.pending@[n - 1 - i]@)
    }
}

impl Unsee {
    /// A stream that yields `tokens` in order.
    pub fn wrap(tokens: Vec<String>) -> (r: Unsee)
        ensures
            r@ == tokens@.map_values(|t: String| t@),
    {
        let mut pending: Vec<String> = Vec::new();
        let mut tokens = tokens;
        let ghost all = tokens@;
        while tokens.len() > 0
            invariant
                tokens@ == all.take(tokens@.len() as int),
                tokens@.len() <= all.len(),
                pending@.len() + tokens@.len() == all.len(),
                forall|i: int|
                    0 <= i < pending@.len() ==> #[trigger] pending@[i] == all[all.len() - 1 - i],
            decreases tokens@.len(),
        {
            let t = tokens.pop().unwrap();
            pending.push(t);
        }
        let r = Unsee { pending };
        assert(r@ =~= all.map_values(|t: String| t@));
        r
    }

    /// Hands `s` back: it is the next token to come.
    pub fn unsee(&mut self, s: String)
        ensures
            final(self)@ == seq![s@] + old(self)@,
    {
        self.pending.push(s);
        assert(final(self)@ =~= seq![s@] + old(self)@);
    }

    /// The next token, or `None` at the end of the stream.
    pub fn next(&mut self) -> (r: Option<String>)
        ensures
            old(self)@.len() == 0 ==> r is None && final(self)@ == old(self)@,
            old(self)@.len() > 0 ==> r is Some && r->0@ == old(self)@[0]
                && final(self)@ == old(self)@.drop_first(),
    {
        let r = self.pending.pop();
        assert(final(self)@ =~= if old(self)@.len() == 0 {
            old(self)@
        } else {
            old(self)@.drop_first()
        });
        r
    }
}

/// Reading a token and handing it back leaves the stream as it was: the
/// token comes next again, and the tokens after it are those that followed.
pub proof fn lemma_pushback_restores(s: Seq<Seq<char>>)
    requires
        s.len() > 0,
    ensures
        seq![s[0]] + s.drop_first() == s,
        (seq![s[0]] + s.drop_first())[0] == s[0],
        (seq![s[0]] + s.drop_first()).drop_first() == s.drop_first(),
{
    assert(seq![s[0]] + s.drop_first() =~= s);
}

} // verus!
