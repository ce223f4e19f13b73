//! The clipboard of the sandbox: what is offered to its applications, and how their
//! selection is copied out.

use vstd::prelude::*;

use crate::text;

verus! {

/// The types in which a selection is offered and asked for, the first one first.
pub open spec fn mime_list() -> Seq<Seq<char>> {
    seq!["text/plain;charset=utf-8"@, "text/plain"@, "UTF8_STRING"@, "STRING"@, "TEXT"@]
}

/// `mime_list`, computed.
pub fn mimes() -> (r: Vec<String>)
    ensures
        text::texts(r@) == mime_list(),
{
    let mut v: Vec<String> = Vec::new();
    v.push("text/plain;charset=utf-8".to_owned());
    v.push("text/plain".to_owned());
    v.push("UTF8_STRING".to_owned());
    v.push("STRING".to_owned());
    v.push("TEXT".to_owned());
    assert(text::texts(v@) =~= mime_list());
    v
}

/// The time for one transfer, in milliseconds.
pub const CLIP_BUDGET_MS: u64 = 8000;

/// The most transfers at a time.
pub const MAX_CLIP_THREADS: usize = 16;

/// Is one more transfer started beside `running` ones?
pub fn admits(running: usize, max: usize) -> (r: bool)
    ensures
        r == (running < max),
{
    running < max
}

/// What a request for the selection is answered: an application gives it, it is our own,
/// it is not offered in that type, or there is none.
#[derive(Clone, Copy, PartialEq, Eq, Structural, Debug)]
pub enum Answer {
    Given,
    Own,
    NotOffered,
    NoSelection,
}

/// What follows: what the application writes is read, our own bytes are taken, the next
/// type is asked for, or nothing is copied.
#[derive(Clone, Copy, PartialEq, Eq, Structural, Debug)]
pub enum Pull {
    Drain,
    TakeOwn,
    Ask(usize),
    Stop,
}

/// What follows the answer for the type at `i`.
pub open spec fn after_answer(i: int, a: Answer) -> Pull {
    match a {
        Answer::Given => Pull::Drain,
        Answer::Own => Pull::TakeOwn,
        Answer::NotOffered => if i + 1 < mime_list().len() {
            Pull::Ask((i + 1) as usize)
        } else {
            Pull::Stop
        },
        Answer::NoSelection => Pull::Stop,
    }
}

/// `after_answer`, computed.
pub fn pull_step(i: usize, a: Answer) -> (r: Pull)
    requires
        i < mime_list().len(),
    ensures
        r == after_answer(i as int, a),
{
    match a {
        Answer::Given => Pull::Drain,
        Answer::Own => Pull::TakeOwn,
        Answer::NotOffered => if i + 1 < 5 {
            Pull::Ask(i + 1)
        } else {
            Pull::Stop
        },
        Answer::NoSelection => Pull::Stop,
    }
}

/// How a pull ends that gets these answers, from the type at `i` on.
pub open spec fn pull_ends(i: int, answers: spec_fn(int) -> Answer) -> Pull
    decreases mime_list().len() - i,
{
    match after_answer(i, answers(i)) {
        Pull::Ask(_) => if i < mime_list().len() {
            pull_ends(i + 1, answers)
        } else {
            Pull::Stop
        },
        p => p,
    }
}

/// The selection is copied in the first type in which it is offered; where it is offered
/// in none, nothing is.
pub proof fn law_the_first_offered_type_is_copied(answers: spec_fn(int) -> Answer, first: int)
    requires
        0 <= first <= mime_list().len(),
        forall|k: int| 0 <= k < first ==> #[trigger] answers(k) == Answer::NotOffered,
        first < mime_list().len() ==> answers(first) == Answer::Given,
    ensures
        pull_ends(0, answers) == if first < mime_list().len() { Pull::Drain } else { Pull::Stop },
{
    lemma_pull(0, answers, first);
}

proof fn lemma_pull(i: int, answers: spec_fn(int) -> Answer, first: int)
    requires
        0 <= i <= first <= mime_list().len(),
        i < mime_list().len(),
        forall|k: int| 0 <= k < first ==> #[trigger] answers(k) == Answer::NotOffered,
        first < mime_list().len() ==> answers(first) == Answer::Given,
    ensures
        pull_ends(i, answers) == if first < mime_list().len() { Pull::Drain } else { Pull::Stop },
    decreases first - i,
{
    if i < first {
        assert(answers(i) == Answer::NotOffered);
        if i + 1 < mime_list().len() {
            lemma_pull(i + 1, answers, first);
        }
    }
}

/// The first type that is answered with anything but a refusal decides: what is given is
/// read, what is our own is taken, and without a selection nothing is copied. Every type of
/// text is asked for in turn, UTF-8 first.
pub proof fn law_the_first_answer_decides(answers: spec_fn(int) -> Answer, first: int)
    requires
        0 <= first < 5,
        forall|k: int| 0 <= k < first ==> #[trigger] answers(k) == Answer::NotOffered,
        answers(first) != Answer::NotOffered,
    ensures
        pull_ends(0, answers) == match answers(first) {
            Answer::Given => Pull::Drain,
            Answer::Own => Pull::TakeOwn,
            _ => Pull::Stop,
        },
        mime_list().len() == 5,
        mime_list()[0] == "text/plain;charset=utf-8"@,
        mime_list()[1] == "text/plain"@,
        mime_list()[2] == "UTF8_STRING"@,
        mime_list()[3] == "STRING"@,
        mime_list()[4] == "TEXT"@,
        forall|i: int| 0 <= i < 4 ==> #[trigger] after_answer(i, Answer::NotOffered) == Pull::Ask((i + 1) as usize),
{
    lemma_decided(0, answers, first);
}

proof fn lemma_decided(i: int, answers: spec_fn(int) -> Answer, first: int)
    requires
        0 <= i <= first < mime_list().len(),
        forall|k: int| 0 <= k < first ==> #[trigger] answers(k) == Answer::NotOffered,
        answers(first) != Answer::NotOffered,
    ensures
        pull_ends(i, answers) == match answers(first) {
            Answer::Given => Pull::Drain,
            Answer::Own => Pull::TakeOwn,
            _ => Pull::Stop,
        },
    decreases first - i,
{
    if i < first {
        assert(answers(i) == Answer::NotOffered);
        lemma_decided(i + 1, answers, first);
    }
}

} // verus!
