//! Snake-case identifiers for modules, components and events.
use vstd::prelude::*;

verus! {

/// Message for an empty identifier.
pub const EMPTY_MESSAGE: &'static str = "identifier must not be empty";

/// Message for an identifier that does not start with a lowercase ASCII letter.
pub const START_MESSAGE: &'static str = "identifier must start with a lowercase ASCII character";

/// Message for an identifier holding a character outside `[a-z0-9_]`.
pub const SNAKE_CASE_MESSAGE: &'static str = "identifier must be snake-case ASCII";

/// Why a string is not an identifier.
#[derive(Clone, Copy, Debug, PartialEq, Eq, Structural)]
pub enum IdentifierError {
    Empty,
    BadStart,
    NotSnakeCase,
}

pub open spec fn is_lower_ascii(c: char) -> bool {
    'a' <= c && c <= 'z'
}

pub open spec fn is_snake_char(c: char) -> bool {
    is_lower_ascii(c) || ('0' <= c && c <= '9') || c == '_'
}

/// The first rule that `s` breaks, if any.
pub open spec fn identifier_error(s: Seq<char>) -> Option<IdentifierError> {
    if s.len() == 0 {
        Some(IdentifierError::Empty)
    } else if !is_lower_ascii(s[0]) {
        Some(IdentifierError::BadStart)
    } else if exists|i: int| 0 <= i < s.len() && !is_snake_char(#[trigger] s[i]) {
        Some(IdentifierError::NotSnakeCase)
    } else {
        None
    }
}

pub open spec fn is_identifier(s: Seq<char>) -> bool {
    identifier_error(s) is None
}

impl IdentifierError {
    pub open spec fn message_spec(self) -> Seq<char> {
        match self {
            IdentifierError::Empty => EMPTY_MESSAGE@,
            IdentifierError::BadStart => START_MESSAGE@,
            IdentifierError::NotSnakeCase => SNAKE_CASE_MESSAGE@,
        }
    }

    /// The human-readable text of the error.
    pub fn message(&self) -> (r: &'static str)
        ensures
            r@ == self.message_spec(),
    {
        match self {
            IdentifierError::Empty => EMPTY_MESSAGE,
            IdentifierError::BadStart => START_MESSAGE,
            IdentifierError::NotSnakeCase => SNAKE_CASE_MESSAGE,
        }
    }
}

/// Checks `s` against the identifier grammar.
pub fn check_identifier(s: &str) -> (r: Option<IdentifierError>)
    ensures
        r == identifier_error(s@),
{
    let n = s.unicode_len();
    if n == 0 {
        return Some(IdentifierError::Empty);
    }
    let c0 = s.get_char(0);
    if !('a' <= c0 && c0 <= 'z') {
        return Some(IdentifierError::BadStart);
    }
    let mut i: usize = 0;
    while i < n
        invariant
            n == s@.len(),
            i <= n,
            is_lower_ascii(s@[0]),
            forall|j: int| 0 <= j < i ==> is_snake_char(#[trigger] s@[j]),
        decreases n - i,
    {
        let c = s.get_char(i);
        if !(('a' <= c && c <= 'z') || ('0' <= c && c <= '9') || c == '_') {
            assert(!is_snake_char(s@[i as int]));
            return Some(IdentifierError::NotSnakeCase);
        }
        i = i + 1;
    }
    None
}

/// A validated snake-case identifier.
#[derive(Debug, PartialEq, Eq)]
pub struct Identifier(pub String);

impl View for Identifier {
    type V = Seq<char>;

    open spec fn view(&self) -> Seq<char> {
        self.0@
    }
}

impl Identifier {
    /// Validates `s` and wraps it; on failure returns the message of the first
    /// rule broken.
    pub fn new(s: &str) -> (r: Result<Identifier, &'static str>)
        ensures
            match identifier_error(s@) {
                None => r is Ok && r->Ok_0@ == s@,
                Some(e) => r is Err && r->Err_0@ == e.message_spec(),
            },
    {
        match check_identifier(s) {
            None => Ok(Identifier(String::from_str(s))),
            Some(e) => Err(e.message()),
        }
    }

    /// A copy of this identifier.
    pub fn duplicate(&self) -> (r: Identifier)
        ensures
            r@ == self@,
    {
        Identifier(self.0.clone())
    }

    pub fn as_str(&self) -> (r: &str)
        ensures
            r@ == self@,
    {
        self.0.as_str()
    }
}

/// The segments of `s` between `::` separators, read from the left.
pub open spec fn split_path(s: Seq<char>) -> Seq<Seq<char>>
    decreases s.len(),
{
    if s.len() == 0 {
        seq![Seq::empty()]
    } else if s.len() >= 2 && s[0] == ':' && s[1] == ':' {
        seq![Seq::<char>::empty()] + split_path(s.subrange(2, s.len() as int))
    } else {
        prepend(seq![s[0]], split_path(s.drop_first()))
    }
}

/// `segs` with `head` put in front of its first segment.
pub open spec fn prepend(head: Seq<char>, segs: Seq<Seq<char>>) -> Seq<Seq<char>> {
    segs.update(0, head + segs[0])
}

/// The first rule broken by a segment, scanning from the left.
pub open spec fn path_error(segs: Seq<Seq<char>>) -> Option<IdentifierError>
    decreases segs.len(),
{
    if segs.len() == 0 {
        None
    } else {
        match identifier_error(segs[0]) {
            Some(e) => Some(e),
            None => path_error(segs.drop_first()),
        }
    }
}

proof fn lemma_split_path_nonempty(s: Seq<char>)
    ensures
        split_path(s).len() >= 1,
    decreases s.len(),
{
    if s.len() >= 2 && s[0] == ':' && s[1] == ':' {
        lemma_split_path_nonempty(s.subrange(2, s.len() as int));
    } else if s.len() > 0 {
        lemma_split_path_nonempty(s.drop_first());
    }
}

/// A `::`-separated path of identifiers.
#[derive(Debug, PartialEq, Eq)]
pub struct IdentifierPathBuf(pub Vec<Identifier>);

impl IdentifierPathBuf {
    pub open spec fn segments(&self) -> Seq<Seq<char>> {
        self.0@.map_values(|i: Identifier| i@)
    }

    /// Splits `s` on `::` and validates each segment; on failure returns the
    /// message of the first rule broken, scanning from the left.
    pub fn new(s: &str) -> (r: Result<IdentifierPathBuf, &'static str>)
        ensures
            match path_error(split_path(s@)) {
                None => r is Ok && r->Ok_0.segments() == split_path(s@),
                Some(e) => r is Err && r->Err_0@ == e.message_spec(),
            },
    {
        let parts = split_segments(s);
        let mut ids: Vec<Identifier> = Vec::new();
        let mut k: usize = 0;
        assert(parts@.subrange(0, parts@.len() as int) =~= parts@);
        while k < parts.len()
            invariant
                k <= parts@.len(),
                ids@.map_values(|i: Identifier| i@) == parts@.subrange(0, k as int).map_values(|p: String| p@),
                path_error(split_path(s@)) == path_error(parts@.subrange(k as int, parts@.len() as int).map_values(|p: String| p@)),
                split_path(s@) == parts@.map_values(|p: String| p@),
            decreases parts@.len() - k,
        {
            let ghost rest = parts@.subrange(k as int, parts@.len() as int).map_values(|p: String| p@);
            assert(rest.drop_first() =~= parts@.subrange(k + 1, parts@.len() as int).map_values(|p: String| p@));
            assert(rest[0] == parts@[k as int]@);
            match Identifier::new(parts[k].as_str()) {
                Err(msg) => {
                    return Err(msg);
                },
                Ok(id) => {
                    ids.push(id);
                },
            }
            assert(parts@.subrange(0, k + 1).map_values(|p: String| p@) =~= parts@.subrange(0, k as int).map_values(
                |p: String| p@,
            ).push(parts@[k as int]@));
            assert(ids@.map_values(|i: Identifier| i@) =~= parts@.subrange(0, k + 1).map_values(|p: String| p@));
            k = k + 1;
        }
        assert(parts@.subrange(0, parts@.len() as int) =~= parts@);
        Ok(IdentifierPathBuf(ids))
    }
}

/// The segments of `s` between `::` separators.
fn split_segments(s: &str) -> (r: Vec<String>)
    ensures
        r@.map_values(|p: String| p@) == split_path(s@),
{
    let n = s.unicode_len();
    let mut done: Vec<String> = Vec::new();
    let mut start: usize = 0;
    let mut i: usize = 0;
    assert(s@.subrange(0, n as int) =~= s@);
    assert(prepend(Seq::empty(), split_path(s@)) =~= split_path(s@)) by {
        lemma_split_path_nonempty(s@);
    }
    assert(s@.subrange(0, 0) =~= Seq::<char>::empty());
    while i < n
        invariant
            n == s@.len(),
            start <= i <= n,
            split_path(s@) == done@.map_values(|p: String| p@) + prepend(
                s@.subrange(start as int, i as int),
                split_path(s@.subrange(i as int, n as int)),
            ),
        decreases n - i,
    {
        let ghost rest = s@.subrange(i as int, n as int);
        let ghost cur = s@.subrange(start as int, i as int);
        if i + 1 < n && s.get_char(i) == ':' && s.get_char(i + 1) == ':' {
            let seg = String::from_str(s.substring_char(start, i));
            proof {
                let tail = rest.subrange(2, rest.len() as int);
                assert(tail =~= s@.subrange(i + 2, n as int));
                lemma_split_path_nonempty(tail);
                assert(split_path(rest) == seq![Seq::<char>::empty()] + split_path(tail));
                assert(prepend(cur, split_path(rest)) =~= seq![cur] + split_path(tail));
                assert(prepend(Seq::empty(), split_path(tail)) =~= split_path(tail));
                assert(s@.subrange(i + 2, i + 2) =~= Seq::<char>::empty());
            }
            let ghost before = done@.map_values(|p: String| p@);
            done.push(seg);
            assert(done@.map_values(|p: String| p@) =~= before.push(cur));
            i = i + 2;
            start = i;
        } else {
            proof {
                let tail = rest.drop_first();
                assert(tail =~= s@.subrange(i + 1, n as int));
                lemma_split_path_nonempty(tail);
                assert(rest[0] == s@[i as int]);
                assert(split_path(rest) == prepend(seq![rest[0]], split_path(tail)));
                assert(cur + seq![rest[0]] =~= s@.subrange(start as int, i + 1));
                let x = split_path(tail);
                assert(cur + (seq![rest[0]] + x[0]) =~= (cur + seq![rest[0]]) + x[0]);
                assert(prepend(cur, split_path(rest)) =~= prepend(s@.subrange(start as int, i + 1), split_path(tail)));
            }
            i = i + 1;
        }
    }
    let last = String::from_str(s.substring_char(start, n));
    proof {
        assert(s@.subrange(n as int, n as int) =~= Seq::<char>::empty());
        assert(prepend(s@.subrange(start as int, n as int), split_path(Seq::empty())) =~= seq![s@.subrange(start as int, n as int)]);
    }
    let ghost before = done@.map_values(|p: String| p@);
    done.push(last);
    assert(done@.map_values(|p: String| p@) =~= before.push(s@.subrange(start as int, n as int)));
    done
}

} // verus!
