//! Turning candidates into request targets, and deciding when another request
//! may start so that no more than the worker count are in flight at once.
use vstd::prelude::*;

verus! {

/// The base URL joined to a candidate by exactly one `/` (none added when the
/// base already ends in one), with a trailing `/` when asked for.
pub open spec fn target_url(base: Seq<char>, word: Seq<char>, add_slash: bool) -> Seq<char> {
    let joined = if base.len() > 0 && base.last() == '/' {
        base + word
    } else {
        base + seq!['/'] + word
    };
    if add_slash {
        joined.push('/')
    } else {
        joined
    }
}

/// Builds the URL requested for a candidate.
pub fn form_url(base: &str, word: &str, add_slash: bool) -> (r: String)
    ensures
        r@ == target_url(base@, word@, add_slash),
{
    let slash = "/";
    proof {
        reveal_strlit("/");
    }
    assert(slash@ =~= seq!['/']);
    let n = base.unicode_len();
    let mut r = String::from_str(base);
    if !(n > 0 && base.get_char(n - 1) == '/') {
        r.append(slash);
    }
    r.append(word);
    if add_slash {
        r.append(slash);
    }
    assert(r@ =~= target_url(base@, word@, add_slash));
    r
}

/// What the request loop does next.
#[derive(Clone, Copy, Debug, PartialEq, Eq, Structural)]
pub enum Step {
    /// Take the next candidate, if there is one, and start its request.
    Admit,
    /// Wait for one of the requests in flight to complete.
    Await,
    /// Nothing is in flight and nothing is left: the run is over.
    Finish,
}

/// The admission state of the request loop: how many requests may be in
/// flight, how many are, and whether the candidates have run out.
pub struct Dispatcher {
    limit: usize,
    outstanding: usize,
    exhausted: bool,
}

impl Dispatcher {
    #[verifier::type_invariant]
    spec fn within_limit(&self) -> bool {
        self.outstanding <= self.limit
    }

    /// The most requests that may be in flight at once.
    pub closed spec fn limit(&self) -> nat {
        self.limit as nat
    }

    /// The requests started and not yet completed.
    pub closed spec fn outstanding(&self) -> nat {
        self.outstanding as nat
    }

    /// Whether the candidates have run out.
    pub closed spec fn exhausted(&self) -> bool {
        self.exhausted
    }

    /// The step due in a state: admit while a slot is free and candidates
    /// may remain, else wait while anything is in flight, else finish.
    pub open spec fn step_of(&self) -> Step {
        if !self.exhausted() && self.outstanding() < self.limit() {
            Step::Admit
        } else if self.outstanding() > 0 {
            Step::Await
        } else {
            Step::Finish
        }
    }

    /// A loop that lets at most `limit` requests be in flight.
    pub fn new(limit: usize) -> (r: Self)
        ensures
            r.limit() == limit,
            r.outstanding() == 0,
            !r.exhausted(),
            r.outstanding() <= r.limit(),
    {
        Dispatcher { limit, outstanding: 0, exhausted: false }
    }

    pub fn next_step(&self) -> (r: Step)
        ensures
            r == self.step_of(),
            self.outstanding() <= self.limit(),
    {
        proof {
            use_type_invariant(self);
        }
        if !self.exhausted && self.outstanding < self.limit {
            Step::Admit
        } else if self.outstanding > 0 {
            Step::Await
        } else {
            Step::Finish
        }
    }

    /// Records that a request was started after an `Admit` step.
    pub fn admitted(&mut self)
        requires
            old(self).step_of() == Step::Admit,
        ensures
            final(self).outstanding() == old(self).outstanding() + 1,
            final(self).limit() == old(self).limit(),
            final(self).exhausted() == old(self).exhausted(),
            final(self).outstanding() <= final(self).limit(),
    {
        proof {
            use_type_invariant(&*self);
        }
        self.outstanding = self.outstanding + 1;
    }

    /// Records that an `Admit` step found no candidate left.
    pub fn source_done(&mut self)
        ensures
            final(self).outstanding() == old(self).outstanding(),
            final(self).limit() == old(self).limit(),
            final(self).exhausted(),
            final(self).outstanding() <= final(self).limit(),
    {
        proof {
            use_type_invariant(&*self);
        }
        self.exhausted = true;
    }

    /// Records that a request in flight completed, after an `Await` step.
    pub fn completed(&mut self)
        requires
            old(self).outstanding() > 0,
        ensures
            final(self).outstanding() == old(self).outstanding() - 1,
            final(self).limit() == old(self).limit(),
            final(self).exhausted() == old(self).exhausted(),
            final(self).outstanding() <= final(self).limit(),
    {
        proof {
            use_type_invariant(&*self);
        }
        self.outstanding = self.outstanding - 1;
    }
}

} // verus!
