//! A host that answers from a script.
//!
//! [`Script`] keeps every request it is handed, and answers the first with the
//! first of its answers, the second with the second, and so on. Past the end
//! of the script everything succeeds without a word. It lets a verb be
//! rehearsed, with the calls it makes to be read afterwards.

use vstd::prelude::*;

use crate::sub;
use crate::sub::{Answer, Call, Reply, Request, Runner, World};
use crate::text;

verus! {

/// A host that answers from a script.
#[derive(Debug)]
pub struct Script {
    /// What was asked, in order.
    pub calls: Vec<Request>,
    /// What is answered, in order.
    pub answers: Vec<Answer>,
}

/// The reply of a script to the call of a number.
pub open spec fn scripted(answers: Seq<Reply>, n: nat) -> Reply {
    if n < answers.len() {
        answers[n as int]
    } else {
        sub::silence()
    }
}

fn copy_bytes(b: &Vec<u8>) -> (r: Vec<u8>)
    ensures
        r@ == b@,
{
    let mut out: Vec<u8> = Vec::new();
    let mut i: usize = 0;
    while i < b.len()
        invariant
            i <= b@.len(),
            out@ == b@.take(i as int),
        decreases b@.len() - i,
    {
        out.push(b[i]);
        i = i + 1;
    }
    out
}

fn copy_answer(a: &Answer) -> (r: Answer)
    ensures
        r.deep_view() == a.deep_view(),
{
    let r = Answer {
        failure: text::clone_opt(&a.failure),
        step: a.step,
        rc: a.rc,
        to_rc: a.to_rc,
        stdout: a.stdout.clone(),
        garbled: text::clone_opt(&a.garbled),
        stderr: a.stderr.clone(),
        names: text::clone_texts(&a.names),
        cut: text::clone_opt(&a.cut),
        bytes: copy_bytes(&a.bytes),
        error_bytes: copy_bytes(&a.error_bytes),
        nanos: a.nanos,
        pid: a.pid,
        yes: a.yes,
    };
    assert(r.deep_view() =~= a.deep_view());
    r
}

impl Script {
    /// A host that has been asked nothing yet.
    pub fn new(answers: Vec<Answer>) -> (s: Script)
        ensures
            s.world().calls == Seq::<Call>::empty(),
            forall|n: nat| #[trigger]
                (s.world().replies)(n) == scripted(answers.deep_view(), n),
    {
        let s = Script { calls: Vec::new(), answers: answers };
        assert(s.world().calls =~= Seq::<Call>::empty());
        s
    }
}

impl Runner for Script {
    open spec fn world(&self) -> World {
        let answers = self.answers.deep_view();
        World { calls: self.calls.deep_view(), replies: |n: nat| scripted(answers, n) }
    }

    fn perform(&mut self, q: Request) -> (a: Answer) {
        let n: usize = self.calls.len();
        let ghost before = self.calls.deep_view();
        let ghost asked = q.deep_view();
        self.calls.push(q);
        assert(self.calls.deep_view() =~= before.push(asked));
        let a = if n < self.answers.len() {
            let a = copy_answer(&self.answers[n]);
            assert(a.deep_view() == self.answers.deep_view()[n as int]);
            a
        } else {
            Answer::default()
        };
        proof {
            assert(self.world() =~= old(self).world().after(asked));
        }
        a
    }
}

} // verus!
