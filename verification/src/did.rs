//! What the did:mini parser said about some texts. Whether a text is a
//! did:mini identifier is decided by that parser, which runs outside this
//! library; the caller records its verdict for each text the library will
//! ask about: the identifier's canonical text, or the parser's error.
use crate::lexorder::{compare_strings, Cmp};
use vstd::prelude::*;

verus! {

/// A verdict as plain text: the canonical identifier or the error.
pub open spec fn verdict_view(r: Result<String, String>) -> Result<Seq<char>, Seq<char>> {
    match r {
        Ok(d) => Ok(d@),
        Err(e) => Err(e@),
    }
}

/// The first verdict recorded for `text`, if any.
pub open spec fn verdict_in(
    entries: Seq<(Seq<char>, Result<Seq<char>, Seq<char>>)>,
    text: Seq<char>,
) -> Option<Result<Seq<char>, Seq<char>>>
    decreases entries.len(),
{
    if entries.len() == 0 {
        None
    } else if entries[0].0 == text {
        Some(entries[0].1)
    } else {
        verdict_in(entries.drop_first(), text)
    }
}

/// Recorded parser verdicts, in the order they were recorded.
#[derive(Debug, Clone)]
pub struct DidVerdicts {
    entries: Vec<(String, Result<String, String>)>,
}

impl View for DidVerdicts {
    type V = Seq<(Seq<char>, Result<Seq<char>, Seq<char>>)>;

    closed spec fn view(&self) -> Seq<(Seq<char>, Result<Seq<char>, Seq<char>>)> {
        self.entries@.map_values(|e: (String, Result<String, String>)| (e.0@, verdict_view(e.1)))
    }
}

impl DidVerdicts {
    /// What the parser said about `text`; the first record counts.
    pub open spec fn verdict(&self, text: Seq<char>) -> Option<Result<Seq<char>, Seq<char>>> {
        verdict_in(self@, text)
    }

    /// No verdicts yet.
    pub fn new() -> (v: DidVerdicts)
        ensures
            v@ == Seq::<(Seq<char>, Result<Seq<char>, Seq<char>>)>::empty(),
    {
        let v = DidVerdicts { entries: Vec::new() };
        assert(v@ =~= Seq::<(Seq<char>, Result<Seq<char>, Seq<char>>)>::empty());
        v
    }

    /// Records what the parser said about `text`.
    pub fn record(&mut self, text: &str, verdict: Result<String, String>)
        ensures
            final(self)@ == old(self)@.push((text@, verdict_view(verdict))),
    {
        let ghost before = self.entries@;
        let t = text.to_string();
        self.entries.push((t, verdict));
        assert(self@ =~= old(self)@.push((text@, verdict_view(verdict))));
    }

    /// What the parser said about `text`, if it was recorded.
    pub fn lookup(&self, text: &String) -> (r: Option<Result<String, String>>)
        ensures
            match r {
                Some(v) => self.verdict(text@) == Some(verdict_view(v)),
                None => self.verdict(text@) is None,
            },
    {
        let mut i: usize = 0;
        assert(self@.skip(0) =~= self@);
        while i < self.entries.len()
            invariant
                i <= self@.len(),
                self.entries@.len() == self@.len(),
                verdict_in(self@, text@) == verdict_in(self@.skip(i as int), text@),
            decreases self.entries@.len() - i,
        {
            let ghost rest = self@.skip(i as int);
            assert(rest[0] == self@[i as int]);
            assert(self@[i as int] == (self.entries@[i as int].0@, verdict_view(self.entries@[i as int].1)));
            assert(rest.drop_first() =~= self@.skip(i + 1));
            match compare_strings(&self.entries[i].0, text) {
                Cmp::Equal => {
                    let v = match &self.entries[i].1 {
                        Ok(d) => Ok(d.clone()),
                        Err(e) => Err(e.clone()),
                    };
                    return Some(v);
                },
                _ => {},
            }
            i = i + 1;
        }
        assert(self@.skip(i as int) =~= Seq::<(Seq<char>, Result<Seq<char>, Seq<char>>)>::empty());
        None
    }
}

} // verus!
