//! The search filter: a query of words, all of which a tab must satisfy.
//!
//! A word `is:loaded` asks for a loaded tab; any other word with a colon asks
//! nothing; any other word must occur in the tab's title or url, with ASCII
//! letters compared without regard to case.
use vstd::prelude::*;
use crate::keys::{TabInfo, TabView};
use crate::text::{push_char, is_space, char_is_space};

verus! {

/// ASCII lower case.
pub open spec fn ascii_lower(c: char) -> char {
    if 'A' <= c && c <= 'Z' {
        ((c as u8) + 32u8) as char
    } else {
        c
    }
}

/// `needle` occurs in `hay` at `i`, ASCII letters compared without case.
pub open spec fn occurs_at(hay: Seq<char>, needle: Seq<char>, i: int) -> bool {
    &&& 0 <= i
    &&& i + needle.len() <= hay.len()
    &&& forall|j: int| 0 <= j < needle.len() ==> ascii_lower(#[trigger] hay[i + j]) == ascii_lower(needle[j])
}

pub open spec fn contains_fold(hay: Seq<char>, needle: Seq<char>) -> bool {
    exists|i: int| occurs_at(hay, needle, i)
}

/// Whether the matcher for the literal `needle` (escaped, ASCII
/// case-insensitive, Unicode off) can be built: it fails only past the
/// builder's size limit, which is counted in bytes of a build target, so a
/// needle of several MiB may build on one target and not on another.
pub uninterp spec fn literal_pattern_builds(needle: Seq<char>) -> bool;

/// Relies on `regex::escape`, `regex::RegexBuilder` (with
/// `case_insensitive(true)` and `unicode(false)`) and `Regex::is_match`:
/// an escaped pattern matches its text literally; with Unicode off, case
/// folding applies to ASCII letters only. `None` where the builder refuses.
#[verifier::external_body]
fn find_literal(needle: &str, hay: &str) -> (r: Option<bool>)
    ensures
        r is Some == literal_pattern_builds(needle@),
        r matches Some(b) ==> b == contains_fold(hay@, needle@),
{
    match regex::RegexBuilder::new(&regex::escape(needle)).case_insensitive(true).unicode(false).build() {
        Ok(re) => Some(re.is_match(hay)),
        Err(_) => None,
    }
}

/// The verdict of a literal word from its search in the title and in the
/// url: found in either; a word whose matcher cannot be built asks nothing.
pub fn literal_verdict(in_title: Option<bool>, in_url: Option<bool>) -> (r: bool)
    ensures
        r == match (in_title, in_url) {
            (Some(a), Some(b)) => a || b,
            _ => true,
        },
{
    match (in_title, in_url) {
        (Some(a), Some(b)) => a || b,
        _ => true,
    }
}

/// The words of a query: maximal runs of characters that are not white
/// space, in order.
pub open spec fn words(s: Seq<char>) -> Seq<Seq<char>>
    decreases s.len(),
{
    if s.len() == 0 {
        Seq::empty()
    } else {
        let init = words(s.drop_last());
        let c = s.last();
        if is_space(c) {
            init
        } else if s.len() > 1 && !is_space(s[s.len() - 2]) && init.len() > 0 {
            init.update(init.len() - 1, init.last().push(c))
        } else {
            init.push(seq![c])
        }
    }
}

pub enum Term {
    /// A word that asks nothing (an unknown `key:value`).
    Anything,
    /// `is:loaded`.
    IsLoaded,
    /// A word to find in the title or url.
    Literal(String),
}

pub enum TermView {
    Anything,
    IsLoaded,
    Literal(Seq<char>),
}

impl View for Term {
    type V = TermView;

    open spec fn view(&self) -> TermView {
        match self {
            Term::Anything => TermView::Anything,
            Term::IsLoaded => TermView::IsLoaded,
            Term::Literal(s) => TermView::Literal(s@),
        }
    }
}

pub open spec fn term_of(word: Seq<char>) -> TermView {
    if word == "is:loaded"@ {
        TermView::IsLoaded
    } else if word.contains(':') {
        TermView::Anything
    } else {
        TermView::Literal(word)
    }
}

pub open spec fn term_holds(t: TermView, tab: TabView) -> bool {
    match t {
        TermView::Anything => true,
        TermView::IsLoaded => !tab.unloaded,
        TermView::Literal(n) => !literal_pattern_builds(n) || contains_fold(tab.title, n)
            || contains_fold(tab.url, n),
    }
}

/// A parsed search query.
pub struct Query {
    pub terms: Vec<Term>,
}

impl View for Query {
    type V = Seq<TermView>;

    open spec fn view(&self) -> Seq<TermView> {
        self.terms@.map_values(|t: Term| t@)
    }
}

/// A tab satisfies a query when it satisfies every term; the empty query
/// asks nothing.
pub open spec fn query_holds(q: Seq<TermView>, tab: TabView) -> bool {
    forall|i: int| 0 <= i < q.len() ==> term_holds(#[trigger] q[i], tab)
}

fn word_term(word: String) -> (r: Term)
    ensures
        r@ == term_of(word@),
{
    let n = word.unicode_len();
    let mut i: usize = 0;
    let mut colon = false;
    while i < n
        invariant
            n == word@.len(),
            i <= n,
            colon == exists|j: int| 0 <= j < i && word@[j] == ':',
        decreases n - i,
    {
        if word.get_char(i) == ':' {
            colon = true;
        }
        i = i + 1;
    }
    if !colon {
        proof {
            if word@.contains(':') {
                let j = choose|j: int| 0 <= j < word@.len() && word@[j] == ':';
            }
            reveal_strlit("is:loaded");
            assert(word@ != "is:loaded"@ ) by {
                if word@ == "is:loaded"@ {
                    assert(word@[2] == ':');
                }
            }
        }
        Term::Literal(word)
    } else {
        proof {
            let j = choose|j: int| 0 <= j < i && word@[j] == ':';
            assert(word@.contains(':'));
        }
        if crate::text::compare_text(word.as_str(), "is:loaded") == 0 {
            Term::IsLoaded
        } else {
            Term::Anything
        }
    }
}

impl Query {
    /// Parses a search text into its words' terms, in order.
    pub fn parse(input: &str) -> (r: Query)
        ensures
            r@ == words(input@).map_values(|w: Seq<char>| term_of(w)),
    {
        let n = input.unicode_len();
        let mut done: Vec<String> = Vec::new();
        let mut cur = String::new();
        let mut i: usize = 0;
        while i < n
            invariant
                n == input@.len(),
                i <= n,
                cur@.len() > 0 <==> (i > 0 && !is_space(input@[i - 1])),
                words(input@.take(i as int)) == done@.map_values(|s: String| s@) + (if cur@.len() > 0 {
                    seq![cur@]
                } else {
                    Seq::empty()
                }),
            decreases n - i,
        {
            let c = input.get_char(i);
            let ghost before = input@.take(i as int);
            let ghost after = input@.take(i + 1);
            proof {
                assert(after.drop_last() =~= before);
                assert(after.last() == c);
            }
            if char_is_space(c) {
                if cur.unicode_len() > 0 {
                    let ghost d0 = done@;
                    let w = cur;
                    cur = String::new();
                    done.push(w);
                    proof {
                        assert(done@.map_values(|s: String| s@) =~= d0.map_values(|s: String| s@).push(w@));
                    }
                }
                assert(words(after) == words(before));
                assert(cur@ =~= Seq::<char>::empty());
            } else {
                proof {
                    if i > 0 && !is_space(input@[i - 1]) {
                        assert(before[before.len() - 1] == input@[i - 1]);
                        assert(after[after.len() - 2] == input@[i - 1]);
                    } else if i > 0 {
                        assert(after[after.len() - 2] == input@[i - 1]);
                    }
                }
                let ghost c0 = cur@;
                push_char(&mut cur, c);
                proof {
                    let d = done@.map_values(|s: String| s@);
                    if c0.len() > 0 {
                        assert(words(before) == d.push(c0));
                        assert(words(after) =~= d.push(c0.push(c)));
                    } else {
                        assert(words(before) =~= d);
                        assert(words(after) =~= d.push(seq![c]));
                        assert(cur@ =~= seq![c]);
                    }
                }
            }
            i = i + 1;
        }
        let ghost d0 = done@;
        if cur.unicode_len() > 0 {
            let ghost c0 = cur@;
            done.push(cur);
            assert(done@.map_values(|s: String| s@) =~= d0.map_values(|s: String| s@).push(c0));
        } else {
            assert(done@.map_values(|s: String| s@) =~= d0.map_values(|s: String| s@) + Seq::<Seq<char>>::empty());
        }
        assert(input@.take(n as int) =~= input@);
        let ghost ws = done@.map_values(|s: String| s@);
        let mut terms: Vec<Term> = Vec::new();
        while done.len() > 0
            invariant
                done@.len() + terms@.len() == ws.len(),
                forall|j: int| 0 <= j < done@.len() ==> #[trigger] done@[j]@ == ws[j],
                forall|j: int| 0 <= j < terms@.len() ==> #[trigger] terms@[j]@ == term_of(ws[ws.len() - 1 - j]),
            decreases done@.len(),
        {
            let w = done.pop().unwrap();
            terms.push(word_term(w));
        }
        let mut ordered: Vec<Term> = Vec::new();
        while terms.len() > 0
            invariant
                ordered@.len() + terms@.len() == ws.len(),
                forall|j: int| 0 <= j < terms@.len() ==> #[trigger] terms@[j]@ == term_of(ws[ws.len() - 1 - j]),
                forall|j: int| 0 <= j < ordered@.len() ==> #[trigger] ordered@[j]@ == term_of(ws[j]),
            decreases terms@.len(),
        {
            let t = terms.pop().unwrap();
            ordered.push(t);
        }
        let r = Query { terms: ordered };
        assert(r@ =~= ws.map_values(|w: Seq<char>| term_of(w)));
        r
    }
}

impl Query {
    /// Whether the tab satisfies every term of the query.
    pub fn matches(&self, tab: &TabInfo) -> (r: bool)
        ensures
            r == query_holds(self@, tab@),
    {
        let title: &str = match &tab.title {
            Some(t) => t.as_str(),
            None => {
                proof {
                    reveal_strlit("");
                }
                ""
            },
        };
        let url: &str = match &tab.url {
            Some(u) => u.as_str(),
            None => {
                proof {
                    reveal_strlit("");
                }
                ""
            },
        };
        assert(title@ == tab@.title && url@ == tab@.url);
        let n = self.terms.len();
        let mut i: usize = 0;
        while i < n
            invariant
                n == self@.len(),
                i <= n,
                title@ == tab@.title,
                url@ == tab@.url,
                forall|j: int| 0 <= j < i ==> term_holds(#[trigger] self@[j], tab@),
            decreases n - i,
        {
            let holds = match &self.terms[i] {
                Term::Anything => true,
                Term::IsLoaded => !tab.unloaded,
                Term::Literal(word) => {
                    let in_title = find_literal(word.as_str(), title);
                    let in_url = find_literal(word.as_str(), url);
                    literal_verdict(in_title, in_url)
                },
            };
            assert(self@[i as int] == self.terms@[i as int]@);
            if !holds {
                return false;
            }
            i = i + 1;
        }
        true
    }
}

/// A query of white space alone has no words, and every tab satisfies it.
pub proof fn lemma_blank_query_matches(s: Seq<char>, tab: TabView)
    requires
        forall|i: int| 0 <= i < s.len() ==> is_space(#[trigger] s[i]),
    ensures
        words(s).len() == 0,
        query_holds(words(s).map_values(|w: Seq<char>| term_of(w)), tab),
    decreases s.len(),
{
    if s.len() > 0 {
        assert forall|i: int| 0 <= i < s.drop_last().len() implies is_space(#[trigger] s.drop_last()[i]) by {
            assert(s.drop_last()[i] == s[i]);
        }
        lemma_blank_query_matches(s.drop_last(), tab);
        assert(is_space(s[s.len() - 1]));
    }
}

} // verus!
