//! Document store naming: crawled documents are saved one file per
//! message, under a sanitized file name derived from the message title.
//! The writing itself is plain file I/O and lives outside this crate.

use vstd::prelude::*;
use vstd::string::StringExecFns;
use crate::token::{char_whitespace, chars_vec, string_from_chars};

verus! {

/// A directory that crawled documents are saved into.
pub struct Store {
    pub path: String,
}

/// A crawled document: a title and its text.
#[derive(Debug)]
pub struct Message {
    pub title: String,
    pub text: String,
}

/// A store rooted at `path`, kept with a trailing separator.
pub fn new(path: &str) -> (r: Store)
    ensures
        r.path@ == path@ + "/"@,
{
    let mut p = String::from_str(path);
    p.append("/");
    Store { path: p }
}

impl Store {
    /// The root directory of the store.
    pub fn root(&self) -> (r: &String)
        ensures
            r@ == self.path@,
    {
        &self.path
    }
}

/// A character a title keeps in a file name; spaces become underscores and
/// a few separator and query characters are dropped.
pub open spec fn filename_char(c: char) -> Option<char> {
    if c == ' ' {
        Some('_')
    } else if c == '/' || c == '?' || c == '.' || c == ';' || c == '&' {
        None
    } else {
        Some(c)
    }
}

/// The file name of a title: trim surrounding whitespace, replace spaces
/// by underscores, and drop path and query characters.
pub open spec fn spec_filename(t: Seq<char>) -> Seq<char> {
    strip_space_trail(strip_space_lead(t)).filter_map(|c: char| filename_char(c))
}

/// Drop leading whitespace.
pub open spec fn strip_space_lead(s: Seq<char>) -> Seq<char>
    decreases s.len(),
{
    if s.len() > 0 && char_whitespace(s[0]) {
        strip_space_lead(s.skip(1))
    } else {
        s
    }
}

/// Drop trailing whitespace.
pub open spec fn strip_space_trail(s: Seq<char>) -> Seq<char>
    decreases s.len(),
{
    if s.len() > 0 && char_whitespace(s.last()) {
        strip_space_trail(s.drop_last())
    } else {
        s
    }
}

/// Derive the file name a message title is saved under.
#[verifier::loop_isolation(false)]
pub fn filename_of(title: &str) -> (r: String)
    ensures
        r@ == spec_filename(title@),
{
    let cs = chars_vec(title);
    let mut lo: usize = 0;
    proof {
        assert(cs@.skip(0) =~= cs@);
    }
    while lo < cs.len() && crate::token::is_space_char(cs[lo])
        invariant
            lo <= cs@.len(),
            strip_space_lead(cs@) == strip_space_lead(cs@.skip(lo as int)),
        decreases cs@.len() - lo,
    {
        proof {
            assert(cs@.skip(lo as int).skip(1) =~= cs@.skip(lo + 1 as int));
        }
        lo += 1;
    }
    proof {
        if lo < cs@.len() {
            assert(strip_space_lead(cs@.skip(lo as int)) == cs@.skip(lo as int));
        } else {
            assert(cs@.skip(lo as int) =~= Seq::<char>::empty());
        }
        assert(strip_space_lead(cs@) == cs@.skip(lo as int));
    }
    let ghost led = cs@.skip(lo as int);
    let mut hi: usize = cs.len();
    while hi > lo && crate::token::is_space_char(cs[hi - 1])
        invariant
            lo <= hi <= cs@.len(),
            strip_space_trail(led) == strip_space_trail(cs@.subrange(lo as int, hi as int)),
        decreases hi,
    {
        proof {
            let cur = cs@.subrange(lo as int, hi as int);
            assert(cur.len() > 0 && cur.last() == cs@[hi - 1]);
            assert(cur.drop_last() =~= cs@.subrange(lo as int, hi - 1 as int));
        }
        hi -= 1;
    }
    proof {
        let cur = cs@.subrange(lo as int, hi as int);
        if hi > lo {
            assert(cur.last() == cs@[hi - 1]);
            assert(strip_space_trail(cur) == cur);
        } else {
            assert(cur =~= Seq::<char>::empty());
        }
        assert(strip_space_trail(led) == cs@.subrange(lo as int, hi as int));
    }
    let ghost trimmed = cs@.subrange(lo as int, hi as int);
    let mut out: Vec<char> = Vec::new();
    let mut k: usize = lo;
    proof {
        assert(trimmed.take(0) =~= Seq::<char>::empty());
        assert(out@ =~= trimmed.take(0).filter_map(|c: char| filename_char(c)));
    }
    while k < hi
        invariant
            lo <= k <= hi <= cs@.len(),
            out@ == trimmed.take(k - lo).filter_map(|c: char| filename_char(c)),
        decreases hi - k,
    {
        let c = cs[k];
        proof {
            assert(trimmed[k - lo] == cs@[k as int]);
            trimmed.lemma_filter_map_take_succ(|c2: char| filename_char(c2), k - lo);
        }
        if c == ' ' {
            out.push('_');
        } else if c == '/' || c == '?' || c == '.' || c == ';' || c == '&' {
        } else {
            out.push(c);
        }
        proof {
            assert(out@ =~= trimmed.take(k - lo + 1).filter_map(|c2: char| filename_char(c2)));
        }
        k += 1;
    }
    proof {
        assert(trimmed.take(hi - lo) =~= trimmed);
    }
    string_from_chars(&out)
}

} // verus!
