//! Paths and patterns: how a text is cut into components, and what a
//! component means in a pattern.

use vstd::prelude::*;
use crate::error::InvalidPathError;
use crate::util::{chars_of, first_of, lemma_first_of, lemma_first_of_is, text_of};

verus! {

/// One component of a pattern, as a mathematical value.
pub enum Segment {
    /// Matches the component with exactly this text.
    Static(Seq<char>),
    /// Matches any one non-empty component.
    Wildcard,
    /// Matches any one non-empty component and binds it to this name.
    Variable(Seq<char>),
}

/// One component of a pattern.
#[derive(Clone, Debug)]
pub enum PathSegment {
    /// Matches the component with exactly this text.
    Static(String),
    /// Matches any one non-empty component.
    Wildcard,
    /// Matches any one non-empty component and binds it to this name.
    Variable(String),
}

impl View for PathSegment {
    type V = Segment;

    open spec fn view(&self) -> Segment {
        match self {
            PathSegment::Static(text) => Segment::Static(text@),
            PathSegment::Wildcard => Segment::Wildcard,
            PathSegment::Variable(name) => Segment::Variable(name@),
        }
    }
}

/// The components of a path: the non-empty runs of characters between its
/// slashes, in order.
pub open spec fn split_path(s: Seq<char>) -> Seq<Seq<char>>
    decreases s.len(),
{
    if s.len() == 0 {
        Seq::empty()
    } else {
        let n = first_of(s, '/');
        let rest = if n < s.len() {
            split_path(s.skip(n as int + 1))
        } else {
            Seq::empty()
        };
        if n == 0 {
            rest
        } else {
            seq![s.take(n as int)] + rest
        }
    }
}

/// A component is well formed unless it is empty or is the variable marker
/// with no name behind it.
pub open spec fn valid_chunk(chunk: Seq<char>) -> bool {
    chunk.len() > 0 && !(chunk.len() == 1 && chunk[0] == ':')
}

/// Every component is well formed.
pub open spec fn valid_chunks(chunks: Seq<Seq<char>>) -> bool {
    forall|i: int| 0 <= i < chunks.len() ==> valid_chunk(#[trigger] chunks[i])
}

/// What a component means when it stands in a pattern: `*` is the
/// wildcard, `:name` a variable, anything else a literal.
pub open spec fn classify(chunk: Seq<char>) -> Segment {
    if chunk.len() == 1 && chunk[0] == '*' {
        Segment::Wildcard
    } else if chunk.len() > 0 && chunk[0] == ':' {
        Segment::Variable(chunk.skip(1))
    } else {
        Segment::Static(chunk)
    }
}

/// No component that `split_path` yields is empty or holds a slash.
pub proof fn lemma_split_path_chunks(s: Seq<char>)
    ensures
        forall|i: int|
            0 <= i < split_path(s).len() ==> (#[trigger] split_path(s)[i]).len() > 0,
        forall|i: int, j: int|
            0 <= i < split_path(s).len() && 0 <= j < split_path(s)[i].len() ==> (
            #[trigger] split_path(s)[i][j]) != '/',
    decreases s.len(),
{
    if s.len() > 0 {
        let n = first_of(s, '/') as int;
        lemma_first_of(s, '/');
        let rest = if n < s.len() {
            split_path(s.skip(n + 1))
        } else {
            Seq::empty()
        };
        if n < s.len() {
            lemma_split_path_chunks(s.skip(n + 1));
        }
        if n > 0 {
            let all = split_path(s);
            assert(all == seq![s.take(n)] + rest);
            assert forall|i: int| 0 <= i < all.len() implies (#[trigger] all[i]).len() > 0 by {
                if i > 0 {
                    assert(all[i] == rest[i - 1]);
                }
            }
            assert forall|i: int, j: int| 0 <= i < all.len() && 0 <= j < all[i].len() implies (
            #[trigger] all[i][j]) != '/' by {
                if i > 0 {
                    assert(all[i] == rest[i - 1]);
                    assert(rest[i - 1][j] != '/');
                } else {
                    assert(all[0][j] == s[j]);
                }
            }
        }
    }
}

/// A path cut into its components.
#[derive(Clone, Debug)]
pub struct PathBuf {
    /// The components, first to last.
    pub chunks: Vec<String>,
}

impl View for PathBuf {
    type V = Seq<Seq<char>>;

    open spec fn view(&self) -> Seq<Seq<char>> {
        Seq::new(self.chunks@.len(), |i: int| self.chunks@[i]@)
    }
}

impl PathBuf {
    /// Every component is well formed.
    pub open spec fn wf(&self) -> bool {
        valid_chunks(self@)
    }

    /// Cuts `path` at its slashes and drops the empty components.
    pub fn split(path: &str) -> (p: PathBuf)
        ensures
            p@ == split_path(path@),
    {
        let chars = chars_of(path);
        let n = chars.len();
        let mut chunks: Vec<String> = Vec::new();
        let mut start: usize = 0;
        let mut i: usize = 0;
        proof {
            assert(chars@.skip(0) == chars@);
        }
        while i < n
            invariant
                start <= i <= n,
                n == chars@.len(),
                forall|j: int| start <= j < i ==> chars@[j] != '/',
                split_path(chars@) == Seq::new(chunks@.len(), |k: int| chunks@[k]@) + split_path(
                    chars@.skip(start as int),
                ),
            decreases n - i,
        {
            if chars[i] == '/' {
                let ghost tail = chars@.skip(start as int);
                proof {
                    lemma_first_of_is(tail, '/', i - start);
                    assert(tail.skip(i - start + 1) == chars@.skip(i + 1));
                }
                if i > start {
                    let chunk = text_of(&chars, start, i);
                    proof {
                        assert(chunk@ == tail.take(i - start));
                    }
                    chunks.push(chunk);
                }
                start = i + 1;
            }
            i += 1;
        }
        let ghost tail = chars@.skip(start as int);
        proof {
            lemma_first_of_is(tail, '/', n - start);
        }
        if n > start {
            let chunk = text_of(&chars, start, n);
            proof {
                assert(chunk@ == tail.take(n - start));
            }
            chunks.push(chunk);
        }
        let p = PathBuf { chunks };
        p
    }

    /// Whether every component is well formed.
    pub fn is_valid(&self) -> (valid: bool)
        ensures
            valid == self.wf(),
    {
        let mut i: usize = 0;
        while i < self.chunks.len()
            invariant
                i <= self.chunks@.len(),
                forall|k: int| 0 <= k < i ==> valid_chunk(#[trigger] self@[k]),
            decreases self.chunks@.len() - i,
        {
            let chars = chars_of(self.chunks[i].as_str());
            if chars.len() == 0 || (chars.len() == 1 && chars[0] == ':') {
                proof {
                    assert(!valid_chunk(self@[i as int]));
                }
                return false;
            }
            i += 1;
        }
        true
    }

    /// Cuts `path` at its slashes and drops the empty components. Fails
    /// exactly when a component is a variable marker without a name.
    pub fn parse(path: &str) -> (r: Result<PathBuf, InvalidPathError>)
        ensures
            match r {
                Ok(p) => p@ == split_path(path@) && p.wf(),
                Err(_) => !valid_chunks(split_path(path@)),
            },
    {
        let p = Self::split(path);
        if p.is_valid() {
            Ok(p)
        } else {
            Err(InvalidPathError)
        }
    }
}

/// What a component means when it stands in a pattern.
pub fn segment_of(chunk: &str) -> (segment: PathSegment)
    ensures
        segment@ == classify(chunk@),
{
    let chars = chars_of(chunk);
    if chars.len() == 1 && chars[0] == '*' {
        PathSegment::Wildcard
    } else if chars.len() > 0 && chars[0] == ':' {
        let name = text_of(&chars, 1, chars.len());
        PathSegment::Variable(name)
    } else {
        let text = text_of(&chars, 0, chars.len());
        proof {
            assert(chars@.subrange(0, chars@.len() as int) == chunk@);
        }
        PathSegment::Static(text)
    }
}

} // verus!
