//! Media types such as `text/html` or `text/plain;charset=utf-8`, and the
//! wildcard matching used to negotiate between them.
use vstd::prelude::*;
use vstd::string::*;
use crate::text::{chars_of, find, first_at, lemma_split_once_at, lemma_split_once_none, split_once, string_of};

verus! {

/// Why a media type or an `Accept` header could not be used.
#[derive(Debug, Clone, Copy, PartialEq, Eq, Structural)]
pub enum NegotiationError {
    /// The token has no `/`, or an empty main type or subtype.
    MalformedMediaType,
    /// The weight after `;q=` is not a quality value.
    InvalidQValue,
    /// No registered representation matches any requested media type.
    NoAcceptableHandler,
}

/// The mathematical content of a [`MediaType`].
pub struct MediaTypeModel {
    pub main: Seq<char>,
    pub sub: Seq<char>,
    pub parameter: Option<(Seq<char>, Seq<char>)>,
}

/// A media type `main/sub`, with an optional `key=value` parameter.
/// Neither the main type nor the subtype is empty; `*` in either is a
/// wildcard.
#[derive(Debug)]
pub struct MediaType {
    main_type: String,
    sub_type: String,
    parameter: Option<(String, String)>,
}

impl View for MediaType {
    type V = MediaTypeModel;

    closed spec fn view(&self) -> MediaTypeModel {
        MediaTypeModel {
            main: self.main_type@,
            sub: self.sub_type@,
            parameter: match self.parameter {
                Some((k, v)) => Some((k@, v@)),
                None => None,
            },
        }
    }
}

/// One slot of a media type matches another if they are equal or either is `*`.
pub open spec fn part_matches_spec(a: Seq<char>, b: Seq<char>) -> bool {
    a == b || a == seq!['*'] || b == seq!['*']
}

/// Both slots match; the parameter plays no part.
pub open spec fn matches_spec(a: MediaTypeModel, b: MediaTypeModel) -> bool {
    part_matches_spec(a.main, b.main) && part_matches_spec(a.sub, b.sub)
}

impl MediaTypeModel {
    pub open spec fn wf(self) -> bool {
        self.main.len() > 0 && self.sub.len() > 0
    }
}

/// The media type that a token denotes: the text before the first `/` is the
/// main type; the rest, up to its first `;`, is the subtype; what follows that
/// `;`, split at its first `=`, is the parameter. `None` where there is no `/`
/// or where the main type or the subtype is empty.
pub open spec fn parse_media_type(s: Seq<char>) -> Option<MediaTypeModel> {
    match split_once(s, seq!['/']) {
        None => None,
        Some((main, rest)) => {
            let (sub, param) = match split_once(rest, seq![';']) {
                Some((a, b)) => (a, b),
                None => (rest, Seq::<char>::empty()),
            };
            if main.len() == 0 || sub.len() == 0 {
                None
            } else {
                Some(MediaTypeModel { main, sub, parameter: split_once(param, seq!['=']) })
            }
        },
    }
}

/// `v[lo..hi]` as a vector of its own.
pub fn sub_vec(v: &Vec<char>, lo: usize, hi: usize) -> (r: Vec<char>)
    requires
        lo <= hi <= v.len(),
    ensures
        r@ == v@.subrange(lo as int, hi as int),
{
    let mut r: Vec<char> = Vec::new();
    let mut i: usize = lo;
    while i < hi
        invariant
            lo <= i <= hi <= v.len(),
            r@ == v@.subrange(lo as int, i as int),
        decreases hi - i,
    {
        r.push(v[i]);
        i = i + 1;
        assert(r@ =~= v@.subrange(lo as int, i as int));
    }
    r
}

/// Splits `v` around the first `c`, as two strings.
fn split_once_chars(v: &Vec<char>, c: char) -> (r: Option<(String, String)>)
    ensures
        match r {
            Some((a, b)) => split_once(v@, seq![c]) == Some((a@, b@)),
            None => split_once(v@, seq![c]) is None,
        },
{
    let p = vec![c];
    assert(p@ =~= seq![c]);
    match find(v, &p) {
        Some(i) => {
            proof {
                lemma_split_once_at(v@, p@, i as int);
            }
            let a = string_of(v, 0, i);
            let b = string_of(v, i + 1, v.len());
            assert(v@.take(i as int) =~= v@.subrange(0, i as int));
            assert(v@.skip(i + 1) =~= v@.subrange(i + 1, v.len() as int));
            Some((a, b))
        },
        None => None,
    }
}

impl MediaType {
    pub open spec fn wf(&self) -> bool {
        self@.wf()
    }

    /// Whether one slot of a media type matches the other.
    pub fn part_matches(a: &str, b: &str) -> (r: bool)
        ensures
            r == part_matches_spec(a@, b@),
    {
        let av = chars_of(a);
        let bv = chars_of(b);
        let star = vec!['*'];
        assert(star@ =~= seq!['*']);
        vec_eq(&av, &bv) || vec_eq(&av, &star) || vec_eq(&bv, &star)
    }

    /// Whether the two media types match: main types and subtypes each match.
    pub fn matches(&self, other: &Self) -> (r: bool)
        ensures
            r == matches_spec(self@, other@),
    {
        let main_matches = Self::part_matches(self.main_type.as_str(), other.main_type.as_str());
        let sub_matches = Self::part_matches(self.sub_type.as_str(), other.sub_type.as_str());
        main_matches && sub_matches
    }

    /// Parses a token such as `text/plain;charset=utf-8`.
    pub fn parse(s: &str) -> (r: Result<MediaType, NegotiationError>)
        ensures
            match r {
                Ok(m) => parse_media_type(s@) == Some(m@) && m.wf(),
                Err(e) => parse_media_type(s@) is None && e == NegotiationError::MalformedMediaType,
            },
    {
        let v = chars_of(s);
        Self::parse_chars(&v)
    }

    /// Parses a token given as its characters.
    pub fn parse_chars(v: &Vec<char>) -> (r: Result<MediaType, NegotiationError>)
        ensures
            match r {
                Ok(m) => parse_media_type(v@) == Some(m@) && m.wf(),
                Err(e) => parse_media_type(v@) is None && e == NegotiationError::MalformedMediaType,
            },
    {
        let slash = vec!['/'];
        assert(slash@ =~= seq!['/']);
        let found = find(v, &slash);
        let i = match found {
            Some(i) => i,
            None => {
                proof {
                    lemma_split_once_none(v@, slash@);
                }
                return Err(NegotiationError::MalformedMediaType);
            },
        };
        assert(first_at(v@, slash@, i as int));
        assert(slash@.len() == 1);
        assert(i < v.len());
        proof {
            lemma_split_once_at(v@, slash@, i as int);
        }
        let main_v = sub_vec(v, 0, i);
        let rest = sub_vec(v, i + 1, v.len());
        assert(v@.take(i as int) =~= main_v@);
        assert(v@.skip(i + 1) =~= rest@);
        let semi = vec![';'];
        assert(semi@ =~= seq![';']);
        let (sub_v, param_v) = match find(&rest, &semi) {
            Some(j) => {
                proof {
                    lemma_split_once_at(rest@, semi@, j as int);
                }
                let a = sub_vec(&rest, 0, j);
                let b = sub_vec(&rest, j + 1, rest.len());
                assert(rest@.take(j as int) =~= a@);
                assert(rest@.skip(j + 1) =~= b@);
                (a, b)
            },
            None => {
                proof {
                    lemma_split_once_none(rest@, semi@);
                }
                (sub_vec(&rest, 0, rest.len()), Vec::new())
            },
        };
        assert(rest@.subrange(0, rest.len() as int) =~= rest@);
        if main_v.len() == 0 || sub_v.len() == 0 {
            return Err(NegotiationError::MalformedMediaType);
        }
        let parameter = split_once_chars(&param_v, '=');
        let main_type = string_of(&main_v, 0, main_v.len());
        let sub_type = string_of(&sub_v, 0, sub_v.len());
        assert(main_v@.subrange(0, main_v.len() as int) =~= main_v@);
        assert(sub_v@.subrange(0, sub_v.len() as int) =~= sub_v@);
        Ok(MediaType { main_type, sub_type, parameter })
    }

    /// The media type `main/sub`, without a parameter.
    pub fn new(main: &str, sub: &str) -> (r: MediaType)
        requires
            main@.len() > 0,
            sub@.len() > 0,
        ensures
            r@ == (MediaTypeModel { main: main@, sub: sub@, parameter: None }),
            r.wf(),
    {
        MediaType { main_type: String::from_str(main), sub_type: String::from_str(sub), parameter: None }
    }

    /// The main type, before the `/`.
    pub fn main_type(&self) -> (r: &str)
        ensures
            r@ == self@.main,
    {
        self.main_type.as_str()
    }

    /// The subtype, after the `/`.
    pub fn sub_type(&self) -> (r: &str)
        ensures
            r@ == self@.sub,
    {
        self.sub_type.as_str()
    }

    /// The parameter as a key and a value, if there is one.
    pub fn parameter(&self) -> (r: Option<(String, String)>)
        ensures
            match r {
                Some((k, v)) => self@.parameter == Some((k@, v@)),
                None => self@.parameter is None,
            },
    {
        match &self.parameter {
            Some((k, v)) => Some((k.clone(), v.clone())),
            None => None,
        }
    }
}

/// Whether two character vectors are equal.
pub fn vec_eq(a: &Vec<char>, b: &Vec<char>) -> (r: bool)
    ensures
        r == (a@ == b@),
{
    if a.len() != b.len() {
        return false;
    }
    let mut i: usize = 0;
    while i < a.len()
        invariant
            a.len() == b.len(),
            i <= a.len(),
            forall|k: int| 0 <= k < i ==> a@[k] == b@[k],
        decreases a.len() - i,
    {
        if a[i] != b[i] {
            return false;
        }
        i = i + 1;
    }
    assert(a@ =~= b@);
    true
}

/// Matching does not depend on which side is which.
pub proof fn lemma_matches_commutative(a: MediaTypeModel, b: MediaTypeModel)
    ensures
        matches_spec(a, b) == matches_spec(b, a),
{
}

} // verus!
