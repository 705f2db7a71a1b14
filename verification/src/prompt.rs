//! Questions put to the user.
use vstd::prelude::*;
use std::collections::VecDeque;
use crate::error::ToolError;
use crate::git::{parse_u64, u64_text};
use crate::profile::{ascii_lower, lower_chars};
use crate::size::{trim, trim_text};
use crate::text::{chars_eq, chars_of};

verus! {

#[derive(Clone, Copy, Debug, PartialEq, Eq)]
pub enum Answer {
    Yes,
    No,
    Quit,
}

/// The default answer: Yes when `default_yes`, else No.
pub open spec fn default_answer(default_yes: bool) -> Answer {
    if default_yes {
        Answer::Yes
    } else {
        Answer::No
    }
}

/// What a script `s` answers next: its first answer, or the default once
/// it has run out.
pub open spec fn next_scripted(s: Seq<Answer>, default_yes: bool) -> Answer {
    if s.len() > 0 {
        s[0]
    } else {
        default_answer(default_yes)
    }
}

/// What is left of a script once it answered.
pub open spec fn after_scripted(s: Seq<Answer>) -> Seq<Answer> {
    if s.len() > 0 {
        s.drop_first()
    } else {
        s
    }
}

/// What a script `s` gives as answer `k` (counted from 0) to a question
/// whose default is `default_yes`.
pub open spec fn scripted_at(s: Seq<Answer>, k: int, default_yes: bool) -> Answer {
    if k < s.len() {
        s[k]
    } else {
        default_answer(default_yes)
    }
}

/// What is left of a script once it gave `k` answers.
pub open spec fn script_after(s: Seq<Answer>, k: int) -> Seq<Answer> {
    if k < s.len() {
        s.skip(k)
    } else {
        Seq::empty()
    }
}

/// Answering from what is left of a script after `k` answers gives its
/// answer `k`, and leaves what is left after `k + 1`.
pub proof fn lemma_script_step(s: Seq<Answer>, k: int, default_yes: bool)
    requires
        0 <= k,
    ensures
        next_scripted(script_after(s, k), default_yes) == scripted_at(s, k, default_yes),
        after_scripted(script_after(s, k)) == script_after(s, k + 1),
{
    if k < s.len() {
        assert(s.skip(k)[0] == s[k]);
        assert(s.skip(k).drop_first() =~= script_after(s, k + 1));
    }
}

/// The questions of the record `after` put since the record was `before`.
pub open spec fn asked_since(
    before: Seq<(Seq<char>, bool, Option<Answer>)>,
    after: Seq<(Seq<char>, bool, Option<Answer>)>,
) -> Seq<(Seq<char>, bool, Option<Answer>)> {
    after.skip(before.len() as int)
}

/// The questions `q` were answered as the script `sc` answers them.
pub open spec fn follows_script(q: Seq<(Seq<char>, bool, Option<Answer>)>, sc: Seq<Answer>) -> bool {
    forall|k: int| 0 <= k < q.len() ==> (#[trigger] q[k]).2 == Some(scripted_at(sc, k, q[k].1))
}

/// Every question of `q` was answered (none failed).
pub open spec fn all_answered(q: Seq<(Seq<char>, bool, Option<Answer>)>) -> bool {
    forall|k: int| 0 <= k < q.len() ==> (#[trigger] q[k]).2 is Some
}

/// Asks the user; a terminal reads standard input, tests script the answers.
pub trait Prompt {
    /// The answers this prompt will give, when they are fixed in advance
    /// (once they run out, the default is given). Nothing is known of a
    /// prompt by default.
    open spec fn script(&self) -> Option<Seq<Answer>> {
        None
    }

    /// Asks `question`, Yes being the default when `default_yes`.
    fn confirm(&mut self, question: &str, default_yes: bool) -> (r: Result<Answer, ToolError>)
        ensures
            old(self).script() matches Some(s) ==> r == Ok::<Answer, ToolError>(next_scripted(s, default_yes))
                && final(self).script() == Some(after_scripted(s)),
    ;

    /// Asks for a positive number, `default` when none is typed.
    fn number(&mut self, question: &str, default: usize) -> (r: Result<usize, ToolError>)
        ensures
            old(self).script() is Some ==> final(self).script() == old(self).script(),
    ;
}

/// A prompt together with the record of the yes/no questions put through
/// it: the question, whether Yes was the default, and the answer (`None`
/// when asking failed).
pub struct Asked<P: Prompt> {
    pub prompt: P,
    log: Ghost<Seq<(Seq<char>, bool, Option<Answer>)>>,
}

impl<P: Prompt> Asked<P> {
    /// The questions put so far, oldest first.
    pub closed spec fn confirmed(&self) -> Seq<(Seq<char>, bool, Option<Answer>)> {
        self.log@
    }

    /// The prompt's script (see `Prompt::script`).
    pub closed spec fn script(&self) -> Option<Seq<Answer>> {
        self.prompt.script()
    }

    /// `prompt` with nothing asked yet.
    pub fn new(prompt: P) -> (r: Asked<P>)
        ensures
            r.confirmed() == Seq::<(Seq<char>, bool, Option<Answer>)>::empty(),
            r.script() == prompt.script(),
    {
        Asked { prompt, log: Ghost(Seq::empty()) }
    }

    /// Asks through the prompt and records the question and its outcome.
    pub fn confirm(&mut self, question: &str, default_yes: bool) -> (r: Result<Answer, ToolError>)
        ensures
            final(self).confirmed() == old(self).confirmed().push(
                (
                    question@,
                    default_yes,
                    match r {
                        Ok(a) => Some(a),
                        Err(_) => None,
                    },
                ),
            ),
            old(self).script() matches Some(s) ==> r == Ok::<Answer, ToolError>(next_scripted(s, default_yes))
                && final(self).script() == Some(after_scripted(s)),
    {
        let r = self.prompt.confirm(question, default_yes);
        proof {
            self.log@ = self.log@.push(
                (
                    question@,
                    default_yes,
                    match r {
                        Ok(a) => Some(a),
                        Err(_) => None,
                    },
                ),
            );
        }
        r
    }
}

/// What a typed line means to a yes/no/quit question: `None` (the end of
/// input) and an empty line give the default; anything unknown asks again.
pub open spec fn answer_for(line: Option<Seq<char>>, default_yes: bool) -> Option<Answer> {
    let default = if default_yes {
        Answer::Yes
    } else {
        Answer::No
    };
    match line {
        None => Some(default),
        Some(l) => {
            let t = ascii_lower(trim(l));
            if t.len() == 0 {
                Some(default)
            } else if t == seq!['y'] || t == seq!['y', 'e', 's'] {
                Some(Answer::Yes)
            } else if t == seq!['n'] || t == seq!['n', 'o'] {
                Some(Answer::No)
            } else if t == seq!['q'] || t == seq!['q', 'u', 'i', 't'] {
                Some(Answer::Quit)
            } else {
                None
            }
        },
    }
}

/// The answer a typed line gives (see `answer_for`).
pub fn read_answer(line: Option<&str>, default_yes: bool) -> (r: Option<Answer>)
    ensures
        r == answer_for(
            match line {
                Some(l) => Some(l@),
                None => None,
            },
            default_yes,
        ),
{
    let default = if default_yes {
        Answer::Yes
    } else {
        Answer::No
    };
    let l = match line {
        None => {
            return Some(default);
        },
        Some(l) => l,
    };
    let t = trim_text(l);
    let lc = lower_chars(t.as_str());
    if lc.len() == 0 {
        return Some(default);
    }
    let y = ['y'];
    let yes = ['y', 'e', 's'];
    let n = ['n'];
    let no = ['n', 'o'];
    let q = ['q'];
    let quit = ['q', 'u', 'i', 't'];
    assert(y@ =~= seq!['y'] && yes@ =~= seq!['y', 'e', 's'] && n@ =~= seq!['n'] && no@ =~= seq!['n', 'o']);
    assert(q@ =~= seq!['q'] && quit@ =~= seq!['q', 'u', 'i', 't']);
    let s = lc.as_slice();
    if chars_eq(s, y.as_slice()) || chars_eq(s, yes.as_slice()) {
        Some(Answer::Yes)
    } else if chars_eq(s, n.as_slice()) || chars_eq(s, no.as_slice()) {
        Some(Answer::No)
    } else if chars_eq(s, q.as_slice()) || chars_eq(s, quit.as_slice()) {
        Some(Answer::Quit)
    } else {
        None
    }
}

/// What a typed line means to a question for a positive number: the end of
/// input and an empty line give the default; anything but a positive
/// number asks again.
pub open spec fn number_for(line: Option<Seq<char>>, default: usize) -> Option<usize> {
    match line {
        None => Some(default),
        Some(l) => {
            let t = trim(l);
            if t.len() == 0 {
                Some(default)
            } else {
                match u64_text(t) {
                    Some(n) => if 0 < n && n <= usize::MAX {
                        Some(n as usize)
                    } else {
                        None
                    },
                    None => None,
                }
            }
        },
    }
}

/// The number a typed line gives (see `number_for`).
pub fn read_number(line: Option<&str>, default: usize) -> (r: Option<usize>)
    ensures
        r == number_for(
            match line {
                Some(l) => Some(l@),
                None => None,
            },
            default,
        ),
{
    let l = match line {
        None => {
            return Some(default);
        },
        Some(l) => l,
    };
    let t = trim_text(l);
    let cs = chars_of(t.as_str());
    if cs.len() == 0 {
        return Some(default);
    }
    match parse_u64(cs.as_slice()) {
        Some(n) => if 0 < n && n as u128 <= usize::MAX as u128 {
            Some(n as usize)
        } else {
            None
        },
        None => None,
    }
}

/// Answers written in advance; once they run out the default is given.
pub struct ScriptedPrompt {
    pub answers: VecDeque<Answer>,
    pub numbers: VecDeque<usize>,
}

impl ScriptedPrompt {
    pub fn new(answers: Vec<Answer>, numbers: Vec<usize>) -> (p: ScriptedPrompt)
        ensures
            p.answers@ == answers@,
            p.numbers@ == numbers@,
    {
        let mut a: VecDeque<Answer> = VecDeque::new();
        let mut i: usize = 0;
        while i < answers.len()
            invariant
                i <= answers.len(),
                a@ =~= answers@.take(i as int),
            decreases answers.len() - i,
        {
            a.push_back(answers[i]);
            i = i + 1;
        }
        let mut n: VecDeque<usize> = VecDeque::new();
        let mut j: usize = 0;
        while j < numbers.len()
            invariant
                j <= numbers.len(),
                n@ =~= numbers@.take(j as int),
            decreases numbers.len() - j,
        {
            n.push_back(numbers[j]);
            j = j + 1;
        }
        assert(a@ =~= answers@);
        assert(n@ =~= numbers@);
        ScriptedPrompt { answers: a, numbers: n }
    }
}

impl Prompt for ScriptedPrompt {
    open spec fn script(&self) -> Option<Seq<Answer>> {
        Some(self.answers@)
    }

    fn confirm(&mut self, question: &str, default_yes: bool) -> (r: Result<Answer, ToolError>)
        ensures
            old(self).answers@.len() > 0 ==> r == Ok::<Answer, ToolError>(old(self).answers@[0])
                && final(self).answers@ == old(self).answers@.drop_first(),
            old(self).answers@.len() == 0 ==> r == Ok::<Answer, ToolError>(
                if default_yes {
                    Answer::Yes
                } else {
                    Answer::No
                },
            ) && final(self).answers@ == old(self).answers@,
            final(self).numbers@ == old(self).numbers@,
    {
        let a = match self.answers.pop_front() {
            Some(a) => a,
            None => if default_yes {
                Answer::Yes
            } else {
                Answer::No
            },
        };
        Ok(a)
    }

    fn number(&mut self, question: &str, default: usize) -> (r: Result<usize, ToolError>)
        ensures
            old(self).numbers@.len() > 0 ==> r == Ok::<usize, ToolError>(old(self).numbers@[0])
                && final(self).numbers@ == old(self).numbers@.drop_first(),
            old(self).numbers@.len() == 0 ==> r == Ok::<usize, ToolError>(default)
                && final(self).numbers@ == old(self).numbers@,
            final(self).answers@ == old(self).answers@,
    {
        match self.numbers.pop_front() {
            Some(n) => Ok(n),
            None => Ok(default),
        }
    }
}

} // verus!
