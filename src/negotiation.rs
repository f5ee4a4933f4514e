//! Picking a representation: the heaviest directive of the `Accept` header
//! that matches any registration decides, and among the registrations it
//! matches the first registered wins.
use vstd::prelude::*;
use crate::accept::{accept_directives, models, parse_accept, DirectiveModel};
use crate::media_type::{matches_spec, MediaType, MediaTypeModel, NegotiationError};

verus! {

/// `i` is the first registration that matches `m`.
pub open spec fn first_match_at(m: MediaTypeModel, regs: Seq<MediaTypeModel>, i: int) -> bool {
    0 <= i < regs.len() && matches_spec(regs[i], m) && forall|j: int|
        0 <= j < i ==> !matches_spec(#[trigger] regs[j], m)
}

/// The first registration that matches `m`, if any does.
pub open spec fn first_match(m: MediaTypeModel, regs: Seq<MediaTypeModel>) -> Option<int> {
    if exists|i: int| first_match_at(m, regs, i) {
        Some(choose|i: int| first_match_at(m, regs, i))
    } else {
        None
    }
}

/// For the first directive that matches some registration, the first
/// registration that it matches; later directives are not consulted.
pub open spec fn select_spec(ds: Seq<DirectiveModel>, regs: Seq<MediaTypeModel>) -> Option<int>
    decreases ds.len(),
{
    if ds.len() == 0 {
        None
    } else {
        match first_match(ds[0].media, regs) {
            Some(i) => Some(i),
            None => select_spec(ds.drop_first(), regs),
        }
    }
}

/// The registration chosen for a request: the first one where the request has
/// no `Accept` header, else the one that the header's directives select.
pub open spec fn negotiate(accept: Option<Seq<char>>, regs: Seq<MediaTypeModel>) -> Result<
    int,
    NegotiationError,
> {
    match accept {
        None => if regs.len() > 0 {
            Ok(0)
        } else {
            Err(NegotiationError::NoAcceptableHandler)
        },
        Some(raw) => match select_spec(accept_directives(raw), regs) {
            Some(i) => Ok(i),
            None => Err(NegotiationError::NoAcceptableHandler),
        },
    }
}

/// The text of a header that may be absent.
pub open spec fn opt_view(a: Option<&str>) -> Option<Seq<char>> {
    match a {
        Some(a) => Some(a@),
        None => None,
    }
}

/// The registrations, as models.
pub open spec fn media_models(v: Seq<MediaType>) -> Seq<MediaTypeModel> {
    v.map_values(|m: MediaType| m@)
}

proof fn lemma_first_match_unique(m: MediaTypeModel, regs: Seq<MediaTypeModel>, i: int)
    requires
        first_match_at(m, regs, i),
    ensures
        first_match(m, regs) == Some(i),
{
    let k = choose|k: int| first_match_at(m, regs, k);
    assert(first_match_at(m, regs, k));
    if k < i {
        assert(!matches_spec(regs[k], m));
    } else if i < k {
        assert(!matches_spec(regs[i], m));
    }
}

/// The first registration that `m` matches.
fn find_match(m: &MediaType, registrations: &Vec<MediaType>) -> (r: Option<usize>)
    ensures
        match r {
            Some(i) => first_match(m@, media_models(registrations@)) == Some(i as int),
            None => first_match(m@, media_models(registrations@)) is None,
        },
{
    let ghost regs = media_models(registrations@);
    let mut i: usize = 0;
    while i < registrations.len()
        invariant
            i <= registrations.len(),
            regs == media_models(registrations@),
            forall|j: int| 0 <= j < i ==> !matches_spec(#[trigger] regs[j], m@),
        decreases registrations.len() - i,
    {
        if registrations[i].matches(m) {
            proof {
                lemma_first_match_unique(m@, regs, i as int);
            }
            return Some(i);
        }
        i = i + 1;
    }
    assert forall|k: int| !first_match_at(m@, regs, k) by {
        if 0 <= k < regs.len() {
            assert(!matches_spec(regs[k], m@));
        }
    }
    None
}

/// Picks the registration that answers a request with the given `Accept`
/// header, or `None` for a request without one; returns its index.
pub fn select_handler(accept: Option<&str>, registrations: &Vec<MediaType>) -> (r: Result<
    usize,
    NegotiationError,
>)
    ensures
        match r {
            Ok(i) => negotiate(opt_view(accept), media_models(registrations@)) == Ok::<
                int,
                NegotiationError,
            >(i as int),
            Err(e) => negotiate(opt_view(accept), media_models(registrations@)) == Err::<
                int,
                NegotiationError,
            >(e),
        },
{
    let raw = match accept {
        None => {
            if registrations.len() > 0 {
                return Ok(0);
            } else {
                return Err(NegotiationError::NoAcceptableHandler);
            }
        },
        Some(raw) => raw,
    };
    assert(opt_view(accept) == Some(raw@));
    let directives = parse_accept(raw);
    let ghost ds = models(directives@);
    let ghost regs = media_models(registrations@);
    let mut i: usize = 0;
    assert(ds.skip(0) =~= ds);
    while i < directives.len()
        invariant
            i <= directives.len(),
            ds == models(directives@),
            regs == media_models(registrations@),
            ds == accept_directives(raw@),
            opt_view(accept) == Some(raw@),
            select_spec(ds.skip(i as int), regs) == select_spec(ds, regs),
        decreases directives.len() - i,
    {
        assert(ds.skip(i as int)[0] == directives@[i as int]@);
        assert(ds.skip(i as int).drop_first() =~= ds.skip(i + 1));
        let found = find_match(&directives[i].media_type, registrations);
        match found {
            Some(k) => {
                assert(select_spec(ds.skip(i as int), regs) == Some(k as int));
                assert(negotiate(Some(raw@), regs) == Ok::<int, NegotiationError>(k as int));
                return Ok(k);
            },
            None => {},
        }
        i = i + 1;
    }
    Err(NegotiationError::NoAcceptableHandler)
}

/// The representations of the diagnostic endpoint.
#[derive(Debug, Clone, Copy, PartialEq, Eq, Structural)]
pub enum Representation {
    /// `text/plain`: the address and a newline.
    Plain,
    /// `application/json`: the address and the reported headers.
    Json,
    /// `text/html`: a page with the address and the reported headers.
    Html,
}

/// The representations in their order of registration.
pub open spec fn representation_at(i: int) -> Representation {
    if i == 0 {
        Representation::Plain
    } else if i == 1 {
        Representation::Json
    } else {
        Representation::Html
    }
}

/// The media types of the diagnostic endpoint, in order of registration:
/// `text/plain`, `application/json`, `text/html`.
pub fn index_registrations() -> (r: Vec<MediaType>)
    ensures
        r.len() == 3,
        r@[0]@ == (MediaTypeModel { main: "text"@, sub: "plain"@, parameter: None }),
        r@[1]@ == (MediaTypeModel { main: "application"@, sub: "json"@, parameter: None }),
        r@[2]@ == (MediaTypeModel { main: "text"@, sub: "html"@, parameter: None }),
{
    proof {
        reveal_strlit("text");
        reveal_strlit("plain");
        reveal_strlit("application");
        reveal_strlit("json");
        reveal_strlit("html");
    }
    let mut r: Vec<MediaType> = Vec::new();
    r.push(MediaType::new("text", "plain"));
    r.push(MediaType::new("application", "json"));
    r.push(MediaType::new("text", "html"));
    r
}

/// The representation that answers a request to the diagnostic endpoint.
pub fn choose_representation(accept: Option<&str>) -> (r: Result<Representation, NegotiationError>)
    ensures
        ({
            let regs = seq![
                MediaTypeModel { main: "text"@, sub: "plain"@, parameter: None },
                MediaTypeModel { main: "application"@, sub: "json"@, parameter: None },
                MediaTypeModel { main: "text"@, sub: "html"@, parameter: None },
            ];
            match negotiate(opt_view(accept), regs) {
                Ok(i) => r == Ok::<Representation, NegotiationError>(representation_at(i)),
                Err(e) => r == Err::<Representation, NegotiationError>(e),
            }
        }),
{
    let regs = index_registrations();
    assert(media_models(regs@) =~= seq![
        MediaTypeModel { main: "text"@, sub: "plain"@, parameter: None },
        MediaTypeModel { main: "application"@, sub: "json"@, parameter: None },
        MediaTypeModel { main: "text"@, sub: "html"@, parameter: None },
    ]);
    match select_handler(accept, &regs) {
        Ok(i) => {
            proof {
                lemma_negotiate_in_range(opt_view(accept), media_models(regs@));
            }
            if i == 0 {
                Ok(Representation::Plain)
            } else if i == 1 {
                Ok(Representation::Json)
            } else {
                Ok(Representation::Html)
            }
        },
        Err(e) => Err(e),
    }
}

proof fn lemma_select_in_range(ds: Seq<DirectiveModel>, regs: Seq<MediaTypeModel>)
    ensures
        match select_spec(ds, regs) {
            Some(i) => 0 <= i < regs.len(),
            None => true,
        },
    decreases ds.len(),
{
    if ds.len() > 0 {
        if exists|i: int| first_match_at(ds[0].media, regs, i) {
            let i = choose|i: int| first_match_at(ds[0].media, regs, i);
            assert(first_match_at(ds[0].media, regs, i));
        } else {
            lemma_select_in_range(ds.drop_first(), regs);
        }
    }
}

/// The chosen registration is one of those given.
pub proof fn lemma_negotiate_in_range(accept: Option<Seq<char>>, regs: Seq<MediaTypeModel>)
    ensures
        match negotiate(accept, regs) {
            Ok(i) => 0 <= i < regs.len(),
            Err(_) => true,
        },
{
    if let Some(raw) = accept {
        lemma_select_in_range(accept_directives(raw), regs);
    }
}

} // verus!
