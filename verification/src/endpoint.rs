//! The endpoint that serves the files of one directory under one URL prefix.

use crate::path::{
    components, components_of, is_kept, join, joined, lemma_components_of_joined,
    lemma_components_of_relative, lemma_without_leading_separators, names_of, starts_with,
    starts_with_path,
};
use crate::response::{Body, Response, StatusCode};
use crate::route::{relative, relative_to, without_first};
use vstd::prelude::*;
use vstd::string::*;
use vstd::utf8::encode_utf8;

verus! {

/// The path that a request for `request` names below `root`, before any
/// link or `..` in it is resolved: the components of what `request` holds
/// behind `prefix`, pushed onto `root` one at a time.
pub open spec fn candidate_of(prefix: Seq<u8>, root: Seq<u8>, request: Seq<u8>) -> Seq<u8> {
    joined(root, components_of(relative_to(prefix, request)))
}

/// Serves the files below one directory to the requests under one prefix.
///
/// `canonicalize` resolves a path to its absolute form without links, and
/// `file_open` opens a file and tells its length; either may fail.
pub struct ServeDir<C, O> {
    prefix: String,
    dir: Vec<u8>,
    canonicalize: C,
    file_open: O,
}

impl<C, O> ServeDir<C, O> {
    /// The bytes of the URL prefix under which the directory is served.
    pub closed spec fn prefix_bytes(&self) -> Seq<u8> {
        encode_utf8(self.prefix@)
    }

    /// The directory that is served.
    pub closed spec fn root(&self) -> Seq<u8> {
        self.dir@
    }

    /// The strategy that resolves a path.
    pub closed spec fn canonicalizer(&self) -> C {
        self.canonicalize
    }

    /// The strategy that opens a file.
    pub closed spec fn opener(&self) -> O {
        self.file_open
    }

    /// Create a new instance of `ServeDir`. Nothing is looked up on the file
    /// system: whether `dir` exists shows with the first request.
    pub fn new(prefix: String, dir: Vec<u8>, canonicalize: C, file_open: O) -> (server: Self)
        ensures
            server.prefix_bytes() == encode_utf8(prefix@),
            server.root() == dir@,
            server.canonicalizer() == canonicalize,
            server.opener() == file_open,
    {
        ServeDir { prefix, dir, canonicalize, file_open }
    }

    /// The URL prefix under which the directory is served.
    pub fn prefix(&self) -> (prefix: &str)
        ensures
            encode_utf8(prefix@) == self.prefix_bytes(),
    {
        self.prefix.as_str()
    }

    /// The directory that is served.
    pub fn dir(&self) -> (dir: &[u8])
        ensures
            dir@ == self.root(),
    {
        self.dir.as_slice()
    }

    /// The strategy that resolves a path.
    pub fn canonicalize(&self) -> (strategy: &C)
        ensures
            *strategy == self.canonicalizer(),
    {
        &self.canonicalize
    }

    /// The strategy that opens a file.
    pub fn file_open(&self) -> (strategy: &O)
        ensures
            *strategy == self.opener(),
    {
        &self.file_open
    }

    /// The path below the served directory that `request` names.
    pub fn candidate(&self, request: &str) -> (path: Vec<u8>)
        ensures
            path@ == candidate_of(self.prefix_bytes(), self.root(), encode_utf8(request@)),
    {
        let rest = relative(self.prefix.as_str().as_bytes(), request.as_bytes());
        let parts = components(rest.as_slice());
        join(self.dir.as_slice(), &parts)
    }

    /// Whether `resolved` and `opened` are answers that the two strategies
    /// give while the request for `request` is served: `resolved` is an answer
    /// of the canonicalizer to `candidate`, the candidate path of the request,
    /// and, where the file is then opened, `opened` is an answer of the opener
    /// to the resolved path. Where no file is opened, `opened` is not bound.
    pub open spec fn asks<S, E>(
        &self,
        request: Seq<u8>,
        candidate: &[u8],
        resolved: Result<Vec<u8>, E>,
        opened: Result<(usize, S), E>,
    ) -> bool where C: Fn(&[u8]) -> Result<Vec<u8>, E>, O: Fn(&[u8]) -> Result<(usize, S), E> {
        &&& candidate@ == candidate_of(self.prefix_bytes(), self.root(), request)
        &&& call_ensures(self.canonicalizer(), (candidate,), resolved)
        &&& next_step(candidate@, resolved) matches Step::Open(canonical) ==> exists|
            target: &[u8],
        |
            target@ == canonical@ && #[trigger] call_ensures(self.opener(), (target,), opened)
    }

    /// Whether `response` is an answer to the request for `request`: the
    /// outcome of some answers that the two strategies give to it.
    pub open spec fn answers<S, E>(&self, request: Seq<u8>, response: Response<S>) -> bool where
        C: Fn(&[u8]) -> Result<Vec<u8>, E>,
        O: Fn(&[u8]) -> Result<(usize, S), E>,
     {
        exists|candidate: &[u8], resolved: Result<Vec<u8>, E>, opened: Result<(usize, S), E>|
            #[trigger] self.asks(request, candidate, resolved, opened) && response == outcome(
                candidate@,
                resolved,
                opened,
            )
    }

    /// Answers the request for `request`: resolves the path it names, checks
    /// that the resolved path lies where the request pointed, opens the file
    /// and hands it on as the body. The strategies must accept every path.
    pub fn call<S, E>(&self, request: &str) -> (response: Response<S>) where
        C: Fn(&[u8]) -> Result<Vec<u8>, E>,
        O: Fn(&[u8]) -> Result<(usize, S), E>,

        requires
            forall|path: &[u8]| call_requires(self.canonicalizer(), (path,)),
            forall|path: &[u8]| call_requires(self.opener(), (path,)),
        ensures
            self.answers(encode_utf8(request@), response),
    {
        let candidate = self.candidate(request);
        let given = candidate.as_slice();
        assert(call_requires(self.canonicalizer(), (given,)));
        let resolved = (self.canonicalize)(given);
        let ghost answer = resolved;
        match after_canonicalize(given, resolved) {
            Step::Refuse(refusal) => {
                assert(self.asks::<S, E>(encode_utf8(request@), given, answer, arbitrary()));
                Response::new(refusal.status())
            },
            Step::Open(canonical) => {
                let target = canonical.as_slice();
                assert(call_requires(self.opener(), (target,)));
                let opened = (self.file_open)(target);
                assert(call_ensures(self.opener(), (target,), opened));
                assert(self.asks(encode_utf8(request@), given, answer, opened));
                after_open(opened)
            },
        }
    }
}

/// Why a request is refused before any file is opened. The reason is for the
/// log alone: the response does not tell one from the other.
#[derive(Debug, PartialEq, Eq)]
pub enum Refusal {
    /// The canonicalizer could not resolve the path.
    Unresolved,
    /// The path resolved to somewhere else than the request pointed; the
    /// resolved path is kept.
    Escaped(Vec<u8>),
}

impl Refusal {
    /// The status that a refused request is answered with: `404 Not Found`,
    /// whatever the reason.
    pub open spec fn status_of(self) -> StatusCode {
        StatusCode::NotFound
    }

    /// The status that a refused request is answered with.
    pub fn status(&self) -> (status: StatusCode)
        ensures
            status == self.status_of(),
            status == StatusCode::NotFound,
    {
        StatusCode::NotFound
    }
}

/// What follows the canonicalizer's answer.
#[derive(Debug, PartialEq, Eq)]
pub enum Step {
    /// The resolved path lies where the request pointed: open it.
    Open(Vec<u8>),
    /// Nothing may be served: answer with the status of the refusal.
    Refuse(Refusal),
}

/// Whether the resolved path `canonical` lies where `candidate` pointed:
/// every component of `candidate` is met, in order and from the start, by
/// its equal in `canonical`.
pub open spec fn admits(candidate: Seq<u8>, canonical: Seq<u8>) -> bool {
    starts_with_path(canonical, candidate)
}

/// The step that follows the answer `resolved` to the request for
/// `candidate`: the file is opened only where the path resolved, and to
/// where the request pointed.
pub open spec fn next_step<E>(candidate: Seq<u8>, resolved: Result<Vec<u8>, E>) -> Step {
    match resolved {
        Ok(canonical) => if admits(candidate, canonical@) {
            Step::Open(canonical)
        } else {
            Step::Refuse(Refusal::Escaped(canonical))
        },
        Err(_) => Step::Refuse(Refusal::Unresolved),
    }
}

/// The response that follows the opener's answer `opened`: the file as the
/// body of `200 OK`, or `500 Internal Server Error` without a body.
pub open spec fn response_to<S, E>(opened: Result<(usize, S), E>) -> Response<S> {
    match opened {
        Ok((length, reader)) => Response::streaming(length, reader),
        Err(_) => Response::bare(StatusCode::InternalServerError),
    }
}

/// The response to a request for `candidate` to which the canonicalizer
/// answered `resolved` and the opener, where it was asked, `opened`.
pub open spec fn outcome<S, E>(
    candidate: Seq<u8>,
    resolved: Result<Vec<u8>, E>,
    opened: Result<(usize, S), E>,
) -> Response<S> {
    match next_step(candidate, resolved) {
        Step::Refuse(refusal) => Response::bare(refusal.status_of()),
        Step::Open(_) => response_to(opened),
    }
}

/// Decides what follows the canonicalizer's answer to `candidate`.
pub fn after_canonicalize<E>(candidate: &[u8], resolved: Result<Vec<u8>, E>) -> (step: Step)
    ensures
        step == next_step(candidate@, resolved),
{
    match resolved {
        Ok(canonical) => {
            if starts_with(canonical.as_slice(), candidate) {
                Step::Open(canonical)
            } else {
                Step::Refuse(Refusal::Escaped(canonical))
            }
        },
        Err(_) => Step::Refuse(Refusal::Unresolved),
    }
}

/// Builds the response from the opener's answer.
pub fn after_open<S, E>(opened: Result<(usize, S), E>) -> (response: Response<S>)
    ensures
        response == response_to(opened),
{
    match opened {
        Ok((length, reader)) => {
            let mut response = Response::new(StatusCode::Success);
            response.set_body(length, reader);
            response
        },
        Err(_) => Response::new(StatusCode::InternalServerError),
    }
}

/// The security invariant of the join: whatever is asked for, the path that
/// is handed to the canonicalizer has the components of the served directory
/// as its first components. Below a directory that is not the empty path, the
/// rest are the components of the relative path, a leading `.` left out.
pub proof fn lemma_candidate_extends_root(prefix: Seq<u8>, root: Seq<u8>, request: Seq<u8>)
    ensures
        starts_with_path(candidate_of(prefix, root, request), root),
        root.len() > 0 ==> components_of(candidate_of(prefix, root, request)) == components_of(root)
            + components_of(relative_to(prefix, request)).filter(is_kept()),
{
    let rest = relative_to(prefix, request);
    lemma_without_leading_separators(without_first(request, prefix));
    lemma_components_of_relative(rest);
    lemma_components_of_joined(root, components_of(rest));
    if root.len() == 0 {
        assert(names_of(root) =~= Seq::<Seq<u8>>::empty());
        assert(names_of(root).filter(is_kept()) =~= Seq::<Seq<u8>>::empty()) by {
            reveal(Seq::filter);
        }
        assert(components_of(root) =~= Seq::<Seq<u8>>::empty());
    }
}

/// A resolved path that is admitted lies in the served directory: the
/// components of the directory are its first components.
pub proof fn lemma_admitted_lies_under_root(
    prefix: Seq<u8>,
    root: Seq<u8>,
    request: Seq<u8>,
    canonical: Seq<u8>,
)
    requires
        admits(candidate_of(prefix, root, request), canonical),
    ensures
        starts_with_path(canonical, root),
{
    lemma_candidate_extends_root(prefix, root, request);
    let candidate = components_of(candidate_of(prefix, root, request));
    assert(components_of(root) =~= components_of(canonical).subrange(
        0,
        components_of(root).len() as int,
    )) by {
        assert forall|i: int| 0 <= i < components_of(root).len() implies components_of(root)[i]
            == components_of(canonical)[i] by {
            assert(components_of(root)[i] == candidate.subrange(
                0,
                components_of(root).len() as int,
            )[i]);
            assert(candidate[i] == components_of(canonical).subrange(0, candidate.len() as int)[i]);
        }
    }
}

/// A file is served only from the served directory: where the response is
/// `200 OK`, the path resolved, the resolved path has the components of the
/// directory as its first components, and the opener opened it.
pub proof fn lemma_served_lies_under_root<S, E>(
    prefix: Seq<u8>,
    root: Seq<u8>,
    request: Seq<u8>,
    resolved: Result<Vec<u8>, E>,
    opened: Result<(usize, S), E>,
)
    requires
        outcome(candidate_of(prefix, root, request), resolved, opened).status
            == StatusCode::Success,
    ensures
        resolved is Ok,
        opened is Ok,
        admits(candidate_of(prefix, root, request), resolved->Ok_0@),
        starts_with_path(resolved->Ok_0@, root),
{
    lemma_admitted_lies_under_root(prefix, root, request, resolved->Ok_0@);
}

/// A request whose path resolves to where it pointed, and whose file opens,
/// is answered `200 OK`; the body has the length that the opener told and is
/// read from what the opener handed over.
pub proof fn lemma_opened_file_is_served<S, E>(
    candidate: Seq<u8>,
    canonical: Vec<u8>,
    length: usize,
    reader: S,
)
    requires
        admits(candidate, canonical@),
    ensures
        next_step::<E>(candidate, Ok(canonical)) == Step::Open(canonical),
        outcome::<S, E>(candidate, Ok(canonical), Ok((length, reader))).status
            == StatusCode::Success,
        outcome::<S, E>(candidate, Ok(canonical), Ok((length, reader))).body == Some(
            Body { length, reader },
        ),
{
}

/// A request whose path resolves to somewhere outside the served directory
/// is answered `404 Not Found` without a body, whatever the opener would say:
/// the very response to a path that does not resolve at all.
pub proof fn lemma_escape_is_not_found<S, E>(
    prefix: Seq<u8>,
    root: Seq<u8>,
    request: Seq<u8>,
    canonical: Vec<u8>,
    failure: E,
    opened: Result<(usize, S), E>,
)
    requires
        !starts_with_path(canonical@, root),
    ensures
        outcome(candidate_of(prefix, root, request), Ok(canonical), opened) == Response::<S>::bare(
            StatusCode::NotFound,
        ),
        outcome(candidate_of(prefix, root, request), Ok(canonical), opened) == outcome(
            candidate_of(prefix, root, request),
            Err(failure),
            opened,
        ),
{
    if admits(candidate_of(prefix, root, request), canonical@) {
        lemma_admitted_lies_under_root(prefix, root, request, canonical@);
    }
}

/// A request whose path does not resolve is answered `404 Not Found` without
/// a body.
pub proof fn lemma_unresolved_is_not_found<S, E>(
    candidate: Seq<u8>,
    failure: E,
    opened: Result<(usize, S), E>,
)
    ensures
        next_step::<E>(candidate, Err(failure)) == Step::Refuse(Refusal::Unresolved),
        outcome(candidate, Err(failure), opened) == Response::<S>::bare(StatusCode::NotFound),
{
}

/// A request whose path resolves to where it pointed, but whose file does
/// not open, is answered `500 Internal Server Error` without a body.
pub proof fn lemma_unopened_is_server_error<S, E>(
    candidate: Seq<u8>,
    canonical: Vec<u8>,
    failure: E,
)
    requires
        admits(candidate, canonical@),
    ensures
        outcome::<S, E>(candidate, Ok(canonical), Err(failure)) == Response::<S>::bare(
            StatusCode::InternalServerError,
        ),
{
}

/// Whether `strategy` answers alike whenever it is asked about the same path.
pub open spec fn is_steady<F, R>(strategy: F) -> bool where F: Fn(&[u8]) -> R {
    forall|first: &[u8], second: &[u8], one: R, other: R|
        first@ == second@ && #[trigger] call_ensures(strategy, (first,), one)
            && #[trigger] call_ensures(strategy, (second,), other) ==> one == other
}

/// The same request is answered the same way twice, status and body, as long
/// as both strategies answer alike about the same path.
pub proof fn lemma_same_request_same_response<C, O, S, E>(
    server: &ServeDir<C, O>,
    request: Seq<u8>,
    first: Response<S>,
    second: Response<S>,
) where C: Fn(&[u8]) -> Result<Vec<u8>, E>, O: Fn(&[u8]) -> Result<(usize, S), E>
    requires
        is_steady(server.canonicalizer()),
        is_steady(server.opener()),
        server.answers(request, first),
        server.answers(request, second),
    ensures
        first == second,
{
}

} // verus!
