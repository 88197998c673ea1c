//! Bearer tokens: who may do what.
use vstd::prelude::*;
use vstd::string::*;
use vstd::utf8::*;

use crate::config::{AuthConfig, GrantConfig};
use crate::error::{misconfigured, verdict, Error, ErrorView, Result, Verdict};
use crate::outside::optional_text;
use crate::text::{
    law_split_joins, lemma_encode_empty, lemma_encode_injective, split, split_text, starts_with,
    text_eq, views,
};

verus! {

/// A token with the namespace that it opens, for reading only or for writing.
pub struct Grant {
    pub token: String,
    pub namespace: String,
    pub write: bool,
}

pub struct GrantView {
    pub token: Seq<char>,
    pub namespace: Seq<char>,
    pub write: bool,
}

impl View for Grant {
    type V = GrantView;

    open spec fn view(&self) -> GrantView {
        GrantView { token: self.token@, namespace: self.namespace@, write: self.write }
    }
}

pub open spec fn grant_views(grants: Seq<Grant>) -> Seq<GrantView> {
    grants.map_values(|g: Grant| g@)
}

/// The tokens that a server accepts, each as a complete `Authorization` header.
/// Without an admin token the server is open.
pub struct Access {
    pub admin: Option<String>,
    pub grants: Vec<Grant>,
}

pub struct AccessView {
    pub admin: Option<Seq<char>>,
    pub grants: Seq<GrantView>,
}

impl View for Access {
    type V = AccessView;

    open spec fn view(&self) -> AccessView {
        AccessView { admin: optional_text(self.admin), grants: grant_views(self.grants@) }
    }
}

pub open spec fn bearer(token: Seq<char>) -> Seq<char> {
    "Bearer "@ + token
}

fn bearer_header(token: &str) -> (header: String)
    ensures
        header@ == bearer(token@),
{
    let mut header = "Bearer ".to_string();
    header.append(token);
    header
}

/// Nonempty printable ASCII without spaces.
pub open spec fn token_valid(token: Seq<char>) -> bool {
    token.len() > 0 && forall|i: int| 0 <= i < token.len() ==> '!' <= #[trigger] token[i] <= '~'
}

/// Whether a text can be a token.
pub fn is_token(token: &str) -> (valid: bool)
    ensures
        valid == token_valid(token@),
{
    if !token.is_ascii() {
        proof {
            if token_valid(token@) {
                assert(is_ascii_chars(token@)) by {
                    assert forall|i: int| 0 <= i < token@.len() implies '\0' <= #[trigger] token@[i]
                        <= '\u{7f}' by {
                        assert('!' <= token@[i] <= '~');
                    }
                }
            }
        }
        return false;
    }
    let bytes = token.as_bytes();
    proof {
        is_ascii_chars_encode_utf8(token@);
    }
    if bytes.len() == 0 {
        return false;
    }
    let mut i: usize = 0;
    while i < bytes.len()
        invariant
            i <= bytes@.len(),
            bytes@.len() == token@.len(),
            forall|j: int| 0 <= j < bytes@.len() ==> bytes@[j] == #[trigger] token@[j] as u8,
            forall|j: int| 0 <= j < token@.len() ==> '\0' <= #[trigger] token@[j] <= '\u{7f}',
            forall|j: int| 0 <= j < i ==> '!' <= #[trigger] token@[j] <= '~',
        decreases bytes@.len() - i,
    {
        let b = bytes[i];
        let ghost c = token@[i as int];
        assert((33 <= b && b <= 126) == ('!' <= c <= '~')) by {
            assert(b == c as u8);
        }
        if b < 33 || b > 126 {
            return false;
        }
        i += 1;
    }
    true
}

// ---------------------------------------------------------------------------
// Loading
// ---------------------------------------------------------------------------
pub open spec fn loaded_grant(grant: GrantConfig, token: Seq<char>) -> GrantView {
    GrantView { token: bearer(token), namespace: grant.namespace@, write: grant.write }
}

pub open spec fn grant_token_verdict(grant: GrantConfig, value: Option<String>) -> Verdict {
    match value {
        None => Err(
            ErrorView::Config("missing token environment variable "@ + grant.token_env@),
        ),
        Some(token) => if token_valid(token@) {
            Ok(())
        } else {
            Err(ErrorView::Config("tokens must be nonempty printable ASCII without spaces"@))
        },
    }
}

/// The first grant without a usable token decides.
pub open spec fn grant_tokens_verdict(
    grants: Seq<GrantConfig>,
    values: Seq<Option<String>>,
    n: nat,
) -> Verdict
    decreases n,
{
    if n == 0 {
        Ok(())
    } else if grant_tokens_verdict(grants, values, (n - 1) as nat) is Err {
        grant_tokens_verdict(grants, values, (n - 1) as nat)
    } else {
        grant_token_verdict(grants[n - 1], values[n - 1])
    }
}

pub open spec fn load_verdict(
    token: Option<String>,
    grants: Seq<GrantConfig>,
    values: Seq<Option<String>>,
) -> Verdict {
    if grant_tokens_verdict(grants, values, grants.len()) is Err {
        grant_tokens_verdict(grants, values, grants.len())
    } else if grants.len() > 0 && token is None {
        Err(ErrorView::Config("namespace grants require an admin API token"@))
    } else {
        Ok(())
    }
}

proof fn lemma_first_grant_decides(
    grants: Seq<GrantConfig>,
    values: Seq<Option<String>>,
    i: nat,
    n: nat,
)
    requires
        i <= n,
        grant_tokens_verdict(grants, values, i) is Err,
    ensures
        grant_tokens_verdict(grants, values, n) == grant_tokens_verdict(grants, values, i),
    decreases n,
{
    if i < n {
        lemma_first_grant_decides(grants, values, i, (n - 1) as nat);
    }
}

impl Access {
    /// Access by an admin token alone, or open access.
    pub fn admin(token: Option<String>) -> (access: Access)
        ensures
            access@.admin == match token {
                Some(t) => Some(bearer(t@)),
                None => None,
            },
            access@.grants == Seq::<GrantView>::empty(),
    {
        let access = Access {
            admin: match token {
                Some(t) => Some(bearer_header(t.as_str())),
                None => None,
            },
            grants: Vec::new(),
        };
        assert(access@.grants =~= Seq::<GrantView>::empty());
        access
    }

    /// Access by an admin token and grants. `values` are the values of the
    /// environment variables that the grants name, in order.
    pub fn load(token: Option<String>, config: &AuthConfig, values: &Vec<Option<String>>) -> (result: Result<
        Access,
    >)
        requires
            values@.len() == config.grants@.len(),
        ensures
            match result {
                Ok(access) => {
                    &&& load_verdict(token, config.grants@, values@) is Ok
                    &&& access@.admin == match token {
                        Some(t) => Some(bearer(t@)),
                        None => None,
                    }
                    &&& access@.grants == Seq::new(
                        config.grants@.len(),
                        |i: int| loaded_grant(config.grants@[i], values@[i]->0@),
                    )
                },
                Err(e) => load_verdict(token, config.grants@, values@) == Err::<(), ErrorView>(e@),
            },
    {
        let open = token.is_none();
        let mut access = Access::admin(token);
        let ghost admin = access@.admin;
        let ghost target = Seq::new(
            config.grants@.len(),
            |i: int| loaded_grant(config.grants@[i], values@[i]->0@),
        );
        let mut i: usize = 0;
        assert(access@.grants =~= target.take(0));
        while i < config.grants.len()
            invariant
                i <= config.grants@.len(),
                values@.len() == config.grants@.len(),
                target == Seq::new(
                    config.grants@.len(),
                    |k: int| loaded_grant(config.grants@[k], values@[k]->0@),
                ),
                grant_tokens_verdict(config.grants@, values@, i as nat) is Ok,
                access@.admin == admin,
                access@.grants == target.take(i as int),
            decreases config.grants@.len() - i,
        {
            let grant = &config.grants[i];
            match &values[i] {
                Some(value) => {
                    if !is_token(value.as_str()) {
                        proof {
                            lemma_first_grant_decides(
                                config.grants@,
                                values@,
                                (i + 1) as nat,
                                config.grants@.len(),
                            );
                        }
                        return Err(
                            misconfigured("tokens must be nonempty printable ASCII without spaces"),
                        );
                    }
                    let ghost before = grant_views(access.grants@);
                    let one = Grant {
                        token: bearer_header(value.as_str()),
                        namespace: grant.namespace.clone(),
                        write: grant.write,
                    };
                    let ghost added = one@;
                    access.grants.push(one);
                    proof {
                        assert(grant_views(access.grants@) =~= before.push(added));
                        assert(added == target[i as int]);
                        assert(target.take(i + 1) =~= target.take(i as int).push(target[i as int]));
                    }
                },
                None => {
                    proof {
                        lemma_first_grant_decides(
                            config.grants@,
                            values@,
                            (i + 1) as nat,
                            config.grants@.len(),
                        );
                    }
                    let mut message = "missing token environment variable ".to_string();
                    message.append(grant.token_env.as_str());
                    return Err(Error::Config(message));
                },
            }
            i += 1;
        }
        assert(target.take(i as int) =~= target);
        if config.grants.len() > 0 && open {
            return Err(misconfigured("namespace grants require an admin API token"));
        }
        Ok(access)
    }
}

// ---------------------------------------------------------------------------
// Authorization
// ---------------------------------------------------------------------------
/// Compares without regard to where a difference lies.
pub fn equal_token(a: &str, b: &str) -> (equal: bool)
    ensures
        equal == (a@ == b@),
{
    let x = a.as_bytes();
    let y = b.as_bytes();
    let n = x.len();
    let m = y.len();
    let mut difference: usize = n ^ m;
    assert((n ^ m == 0) == (n == m)) by (bit_vector);
    let mut i: usize = 0;
    while i < n
        invariant
            i <= n,
            n == x@.len(),
            m == y@.len(),
            (difference == 0) == (n == m && forall|k: int|
                0 <= k < i && k < m ==> #[trigger] x@[k] == y@[k]),
        decreases n - i,
    {
        let other: u8 = if i < m {
            y[i]
        } else {
            0
        };
        let own: u8 = x[i];
        let part: usize = (own ^ other) as usize;
        let before: usize = difference;
        assert((own ^ other == 0) == (own == other)) by (bit_vector);
        assert((before | part == 0) == (before == 0 && part == 0)) by (bit_vector);
        difference = before | part;
        i += 1;
    }
    proof {
        if difference == 0 {
            assert(x@ =~= y@);
        }
        lemma_encode_injective(a@, b@);
    }
    difference == 0
}

/// The nonempty parts of a path.
pub open spec fn nonempty(parts: Seq<Seq<char>>) -> Seq<Seq<char>>
    decreases parts.len(),
{
    if parts.len() == 0 {
        Seq::empty()
    } else {
        let front = nonempty(parts.drop_last());
        if parts.last().len() == 0 {
            front
        } else {
            front.push(parts.last())
        }
    }
}

pub open spec fn segments(path: Seq<char>) -> Seq<Seq<char>> {
    nonempty(split(path, '/'))
}

/// The nonempty parts of a path.
pub fn path_segments(path: &str) -> (parts: Vec<String>)
    ensures
        views(parts@) == segments(path@),
{
    let all = split_text(path, '/');
    let ghost view = views(all@);
    let mut parts: Vec<String> = Vec::new();
    let mut i: usize = 0;
    assert(views(parts@) =~= nonempty(view.take(0)));
    while i < all.len()
        invariant
            i <= all@.len(),
            view == views(all@),
            views(parts@) == nonempty(view.take(i as int)),
        decreases all@.len() - i,
    {
        proof {
            assert(view.take(i + 1).drop_last() =~= view.take(i as int));
            assert(view.take(i + 1).last() == all@[i as int]@);
            lemma_encode_empty(all@[i as int]@);
        }
        if all[i].as_str().as_bytes().len() != 0 {
            let ghost before = views(parts@);
            let part = all[i].clone();
            let ghost added = part@;
            parts.push(part);
            assert(views(parts@) =~= before.push(added));
        }
        i += 1;
    }
    assert(view.take(i as int) =~= view);
    parts
}

/// A path without a leading `/v1`.
pub open spec fn unversioned(path: Seq<char>) -> Seq<char> {
    if "/v1"@.is_prefix_of(path) {
        path.skip("/v1"@.len() as int)
    } else {
        path
    }
}

fn without_version(path: &str) -> (rest: String)
    ensures
        rest@ == unversioned(path@),
{
    if !starts_with(path, "/v1") {
        return path.to_string();
    }
    proof {
        reveal_strlit("/v1");
    }
    let mut rest = String::new();
    let mut seen: usize = 0;
    for c in it: path.chars()
        invariant
            it.seq() == path@,
            seen == if it.index() < 3 {
                it.index()
            } else {
                3
            },
            rest@ == if it.index() < 3 {
                Seq::empty()
            } else {
                path@.subrange(3, it.index())
            },
    {
        if seen < 3 {
            seen = seen + 1;
            assert(seen == 3 ==> path@.subrange(3, 3) =~= Seq::<char>::empty());
        } else {
            rest.push(c);
            assert(path@.subrange(3, it.index() + 1) =~= path@.subrange(3, it.index()).push(c));
        }
    }
    assert(path@.subrange(3, path@.len() as int) =~= path@.skip(3));
    rest
}

/// The namespace that a request is about.
pub open spec fn request_namespace(path: Seq<char>) -> Option<Seq<char>> {
    let parts = segments(unversioned(path));
    if parts.len() >= 2 && parts[0] == "namespaces"@ {
        Some(parts[1])
    } else {
        None
    }
}

/// Reads are GET requests, and the two searches.
pub open spec fn request_reads(method: Seq<char>, path: Seq<char>) -> bool {
    let parts = segments(unversioned(path));
    method == "GET"@ || (method == "POST"@ && parts.len() == 3 && (parts[2] == "query"@ || parts[2]
        == "search"@))
}

/// The grant permits the request.
pub open spec fn grant_permits(
    grant: GrantView,
    method: Seq<char>,
    path: Seq<char>,
    supplied: Seq<char>,
) -> bool {
    &&& grant.token == supplied
    &&& request_namespace(path) == Some(grant.namespace)
    &&& request_reads(method, path) || grant.write
}

pub open spec fn authorization(
    access: AccessView,
    method: Seq<char>,
    path: Seq<char>,
    supplied: Seq<char>,
) -> Verdict {
    if access.admin is None || access.admin->0 == supplied {
        Ok(())
    } else if !(exists|i: int|
        0 <= i < access.grants.len() && (#[trigger] access.grants[i]).token == supplied) {
        Err(ErrorView::Request(401, "A valid bearer token is required."@))
    } else if exists|i: int|
        0 <= i < access.grants.len() && grant_permits(
            #[trigger] access.grants[i],
            method,
            path,
            supplied,
        ) {
        Ok(())
    } else {
        Err(ErrorView::Request(403, "Token does not permit this operation."@))
    }
}

impl Access {
    /// Whether a request may proceed. `supplied` is its `Authorization` header,
    /// empty if it has none.
    pub fn authorize(&self, method: &str, path: &str, supplied: &str) -> (result: Result<()>)
        ensures
            verdict(result) == authorization(self@, method@, path@, supplied@),
    {
        let admin = match &self.admin {
            Some(admin) => admin,
            None => return Ok(()),
        };
        if equal_token(admin.as_str(), supplied) {
            return Ok(());
        }
        let ghost grants = self@.grants;
        let mut known = false;
        let mut i: usize = 0;
        while i < self.grants.len()
            invariant
                i <= self.grants@.len(),
                grants == grant_views(self.grants@),
                known == exists|k: int| 0 <= k < i && (#[trigger] grants[k]).token == supplied@,
            decreases self.grants@.len() - i,
        {
            assert(grants[i as int] == self.grants@[i as int]@);
            if equal_token(self.grants[i].token.as_str(), supplied) {
                known = true;
            }
            i += 1;
        }
        if !known {
            return Err(Error::Request(401, "A valid bearer token is required.".to_string()));
        }
        let rest = without_version(path);
        let parts = path_segments(rest.as_str());
        let ghost names = views(parts@);
        let named = parts.len() >= 2 && text_eq(parts[0].as_str(), "namespaces");
        let searches = parts.len() == 3 && (text_eq(parts[2].as_str(), "query") || text_eq(
            parts[2].as_str(),
            "search",
        ));
        let reads = text_eq(method, "GET") || (text_eq(method, "POST") && searches);
        proof {
            if names.len() >= 2 {
                assert(names[0] == parts@[0]@ && names[1] == parts@[1]@);
            }
            if names.len() == 3 {
                assert(names[2] == parts@[2]@);
            }
            assert(reads == request_reads(method@, path@));
        }
        let mut permitted = false;
        let mut k: usize = 0;
        while k < self.grants.len()
            invariant
                k <= self.grants@.len(),
                grants == grant_views(self.grants@),
                names == views(parts@),
                names == segments(unversioned(path@)),
                named == (names.len() >= 2 && names[0] == "namespaces"@),
                reads == request_reads(method@, path@),
                permitted == exists|j: int|
                    0 <= j < k && grant_permits(
                        #[trigger] grants[j],
                        method@,
                        path@,
                        supplied@,
                    ),
            decreases self.grants@.len() - k,
        {
            let grant = &self.grants[k];
            assert(grants[k as int] == grant@);
            let own = if named {
                assert(names[1] == parts@[1]@);
                text_eq(parts[1].as_str(), grant.namespace.as_str())
            } else {
                false
            };
            let token = equal_token(grant.token.as_str(), supplied);
            if token && own && (reads || grant.write) {
                permitted = true;
                assert(grant_permits(grants[k as int], method@, path@, supplied@));
            } else {
                assert(!grant_permits(grants[k as int], method@, path@, supplied@));
            }
            k += 1;
        }
        if permitted {
            return Ok(());
        }
        Err(Error::Request(403, "Token does not permit this operation.".to_string()))
    }
}

/// Whatever a token other than the admin token is permitted concerns a namespace
/// that it was granted, and changes something only under a write grant.
pub proof fn law_grants_confined(
    access: AccessView,
    method: Seq<char>,
    path: Seq<char>,
    supplied: Seq<char>,
)
    requires
        access.admin is Some,
        access.admin->0 != supplied,
        authorization(access, method, path, supplied) is Ok,
    ensures
        exists|i: int|
            0 <= i < access.grants.len() && (#[trigger] access.grants[i]).token == supplied
                && request_namespace(path) == Some(access.grants[i].namespace) && (request_reads(
                method,
                path,
            ) || access.grants[i].write),
{
    let i = choose|i: int|
        0 <= i < access.grants.len() && grant_permits(
            #[trigger] access.grants[i],
            method,
            path,
            supplied,
        );
    assert(access.grants[i].token == supplied);
}

/// Requests that concern no single namespace, such as listings, metrics and
/// exports, need the admin token where one is set.
pub proof fn law_global_requests_need_admin(
    access: AccessView,
    method: Seq<char>,
    path: Seq<char>,
    supplied: Seq<char>,
)
    requires
        access.admin is Some,
        request_namespace(path) is None,
    ensures
        authorization(access, method, path, supplied) is Ok <==> supplied == access.admin->0,
{
}

// ---------------------------------------------------------------------------
// What requests are about
// ---------------------------------------------------------------------------
proof fn lemma_nonempty_concat(a: Seq<Seq<char>>, b: Seq<Seq<char>>)
    ensures
        nonempty(a + b) == nonempty(a) + nonempty(b),
    decreases b.len(),
{
    if b.len() == 0 {
        assert(a + b =~= a);
        assert(nonempty(a) + nonempty(b) =~= nonempty(a));
    } else {
        lemma_nonempty_concat(a, b.drop_last());
        assert((a + b).drop_last() =~= a + b.drop_last());
        assert((a + b).last() == b.last());
        assert(nonempty(a + b) =~= nonempty(a) + nonempty(b));
    }
}

/// The segments of a path are what its slashes separate, without empty ones:
/// those before a slash, then those after it.
pub proof fn law_segments(a: Seq<char>, b: Seq<char>)
    ensures
        segments(a.push('/') + b) == segments(a) + segments(b),
        segments(Seq::empty()) == Seq::<Seq<char>>::empty(),
        a.len() > 0 && (forall|i: int| 0 <= i < a.len() ==> #[trigger] a[i] != '/') ==> segments(a)
            == seq![a],
{
    law_split_joins(a, b, '/');
    lemma_nonempty_concat(split(a, '/'), split(b, '/'));
    reveal_with_fuel(nonempty, 2);
    let none = seq![Seq::<char>::empty()];
    assert(none.drop_last() =~= Seq::<Seq<char>>::empty());
    let one = seq![a];
    assert(one.drop_last() =~= Seq::<Seq<char>>::empty());
    assert(nonempty(none) =~= Seq::<Seq<char>>::empty());
    if a.len() > 0 {
        assert(nonempty(one) =~= one);
    }
}

/// What follows a name in a path: nothing, or more behind a slash.
pub open spec fn path_rest(rest: Seq<char>) -> bool {
    rest.len() == 0 || rest[0] == '/'
}

/// The path of a request about a namespace.
pub open spec fn namespace_path(name: Seq<char>, rest: Seq<char>) -> Seq<char> {
    "/v1/namespaces/"@ + name + rest
}

pub proof fn lemma_namespace_segments(name: Seq<char>, rest: Seq<char>)
    requires
        name.len() > 0,
        forall|i: int| 0 <= i < name.len() ==> #[trigger] name[i] != '/',
        path_rest(rest),
    ensures
        segments(namespace_path(name, rest)) == seq!["v1"@, "namespaces"@, name] + segments(rest),
        segments(unversioned(namespace_path(name, rest))) == seq!["namespaces"@, name] + segments(
            rest,
        ),
        "/v1"@.is_prefix_of(namespace_path(name, rest)),
{
    reveal_strlit("/v1/namespaces/");
    reveal_strlit("/v1");
    reveal_strlit("v1");
    reveal_strlit("namespaces");
    let path = namespace_path(name, rest);
    let empty = Seq::<char>::empty();
    let tail = name + rest;
    let inner = "namespaces"@.push('/') + tail;
    let whole = "v1"@.push('/') + inner;
    assert(path =~= empty.push('/') + whole);
    law_segments(empty, whole);
    law_segments("v1"@, inner);
    law_segments("namespaces"@, tail);
    assert(segments(empty) + segments(whole) =~= segments(whole));
    law_segments(name, empty);
    if rest.len() == 0 {
        assert(tail =~= name);
        assert(rest =~= empty);
        assert(segments(tail) =~= seq![name] + segments(rest));
    } else {
        let more = rest.skip(1);
        assert(tail =~= name.push('/') + more);
        law_segments(name, more);
        assert(rest =~= empty.push('/') + more);
        law_segments(empty, more);
        assert(segments(empty) + segments(more) =~= segments(more));
    }
    assert(segments(path) =~= seq!["v1"@, "namespaces"@, name] + segments(rest));
    assert(path.take(3) =~= "/v1"@);
    assert(unversioned(path) =~= empty.push('/') + inner);
    law_segments(empty, inner);
    assert(segments(empty) + segments(inner) =~= segments(inner));
    assert(segments(inner) =~= seq!["namespaces"@, name] + segments(rest));
}

/// A request whose path names a namespace is about that namespace. It reads if it
/// is a GET, or the POST of a query or a search; every other one writes.
pub proof fn law_requests_are_about_their_namespace(
    method: Seq<char>,
    name: Seq<char>,
    rest: Seq<char>,
)
    requires
        name.len() > 0,
        forall|i: int| 0 <= i < name.len() ==> #[trigger] name[i] != '/',
        path_rest(rest),
    ensures
        request_namespace(namespace_path(name, rest)) == Some(name),
        request_reads(method, namespace_path(name, rest)) <==> method == "GET"@ || (method
            == "POST"@ && (segments(rest) == seq!["query"@] || segments(rest) == seq!["search"@])),
{
    lemma_namespace_segments(name, rest);
    let parts = segments(unversioned(namespace_path(name, rest)));
    let own = segments(rest);
    assert(parts[0] == "namespaces"@ && parts[1] == name);
    if own.len() == 1 {
        assert(parts[2] == own[0]);
        assert(own =~= seq![own[0]]);
    }
    assert(seq!["query"@].len() == 1 && seq!["search"@].len() == 1);
    assert(seq!["query"@][0] == "query"@ && seq!["search"@][0] == "search"@);
}

/// Who may make a request about a namespace. Without an admin token everybody;
/// the admin always; of the others whoever holds a grant on that namespace, one
/// for writing unless the request reads. A token that is known but lacks the
/// grant is refused with 403, one that is not known with 401.
pub proof fn law_namespace_access(
    access: AccessView,
    method: Seq<char>,
    name: Seq<char>,
    rest: Seq<char>,
    supplied: Seq<char>,
)
    requires
        name.len() > 0,
        forall|i: int| 0 <= i < name.len() ==> #[trigger] name[i] != '/',
        path_rest(rest),
    ensures
        ({
            let verdict = authorization(access, method, namespace_path(name, rest), supplied);
            let reads = method == "GET"@ || (method == "POST"@ && (segments(rest)
                == seq!["query"@] || segments(rest) == seq!["search"@]));
            let known = exists|i: int|
                0 <= i < access.grants.len() && (#[trigger] access.grants[i]).token == supplied;
            let granted = exists|i: int|
                0 <= i < access.grants.len() && (#[trigger] access.grants[i]).token == supplied
                    && access.grants[i].namespace == name && (reads || access.grants[i].write);
            &&& verdict is Ok <==> access.admin is None || access.admin == Some(supplied) || granted
            &&& verdict is Err && known ==> verdict == Err::<(), ErrorView>(
                ErrorView::Request(403, "Token does not permit this operation."@),
            )
            &&& verdict is Err && !known ==> verdict == Err::<(), ErrorView>(
                ErrorView::Request(401, "A valid bearer token is required."@),
            )
        }),
{
    law_requests_are_about_their_namespace(method, name, rest);
    let path = namespace_path(name, rest);
    assert forall|i: int| 0 <= i < access.grants.len() implies grant_permits(
        #[trigger] access.grants[i],
        method,
        path,
        supplied,
    ) == (access.grants[i].token == supplied && access.grants[i].namespace == name && (
    request_reads(method, path) || access.grants[i].write)) by {}
}

/// Tokens are made of the printable ASCII characters without the space, and a
/// request carries one as `Bearer <token>`.
pub proof fn law_tokens_are_printable(token: Seq<char>)
    ensures
        token_valid(token) <==> token.len() >= 1 && forall|i: int|
            0 <= i < token.len() ==> 0x21 <= (#[trigger] token[i]) as int && token[i] as int <= 0x7e,
        bearer(token) == "Bearer "@ + token,
{
    if token_valid(token) {
        assert forall|i: int| 0 <= i < token.len() implies 0x21 <= (#[trigger] token[i]) as int
            && token[i] as int <= 0x7e by {
            assert('!' <= token[i] <= '~');
        }
    } else if token.len() > 0 {
        let i = choose|i: int| 0 <= i < token.len() && !('!' <= #[trigger] token[i] <= '~');
        assert(!(0x21 <= token[i] as int && token[i] as int <= 0x7e));
    }
}

/// Loading fails exactly if a grant's variable is missing or holds no token, or if
/// there are grants but no admin token. Each grant opens its own namespace to its
/// own token.
pub proof fn law_access_loads(
    token: Option<String>,
    grants: Seq<GrantConfig>,
    values: Seq<Option<String>>,
)
    requires
        values.len() == grants.len(),
    ensures
        load_verdict(token, grants, values) is Ok <==> (forall|i: int|
            0 <= i < grants.len() ==> (#[trigger] values[i]) is Some && token_valid(values[i]->0@))
            && (grants.len() == 0 || token is Some),
        forall|i: int|
            0 <= i < grants.len() && (#[trigger] values[i]) is Some ==> loaded_grant(
                grants[i],
                values[i]->0@,
            ) == (GrantView {
                token: "Bearer "@ + values[i]->0@,
                namespace: grants[i].namespace@,
                write: grants[i].write,
            }),
{
    lemma_grant_tokens(grants, values, grants.len());
}

proof fn lemma_grant_tokens(grants: Seq<GrantConfig>, values: Seq<Option<String>>, n: nat)
    requires
        n <= grants.len(),
        values.len() == grants.len(),
    ensures
        grant_tokens_verdict(grants, values, n) is Ok <==> forall|i: int|
            0 <= i < n ==> (#[trigger] values[i]) is Some && token_valid(values[i]->0@),
    decreases n,
{
    if n > 0 {
        lemma_grant_tokens(grants, values, (n - 1) as nat);
        if grant_tokens_verdict(grants, values, n) is Ok {
            assert forall|i: int| 0 <= i < n implies (#[trigger] values[i]) is Some && token_valid(
                values[i]->0@,
            ) by {}
        } else if grant_tokens_verdict(grants, values, (n - 1) as nat) is Ok {
            assert(!(values[n - 1] is Some && token_valid(values[n - 1]->0@)));
        }
    }
}

/// The version at the start of a path does not matter to what the request is about.
pub proof fn law_version_does_not_matter(path: Seq<char>)
    requires
        !"/v1"@.is_prefix_of(path),
    ensures
        unversioned("/v1"@ + path) == path,
        unversioned(path) == path,
        request_namespace("/v1"@ + path) == request_namespace(path),
        forall|method: Seq<char>| #[trigger]
            request_reads(method, "/v1"@ + path) == request_reads(method, path),
{
    let whole = "/v1"@ + path;
    assert(whole.take("/v1"@.len() as int) =~= "/v1"@);
    assert(whole.skip("/v1"@.len() as int) =~= path);
}

/// A request is about a namespace only if its path, behind the version, begins with
/// `namespaces` and a name.
pub proof fn law_other_requests_are_global(path: Seq<char>)
    ensures
        request_namespace(path) is Some <==> segments(unversioned(path)).len() >= 2 && segments(
            unversioned(path),
        )[0] == "namespaces"@,
        request_namespace(path) is Some ==> request_namespace(path)->0 == segments(
            unversioned(path),
        )[1],
{
}

/// What a server accepts is in its fields: the admin token, if there is one, and
/// the grants in order.
pub proof fn law_access_shows_its_fields(access: Access, i: int)
    ensures
        access@.admin is Some <==> access.admin is Some,
        access.admin is Some ==> access@.admin->0 == access.admin->0@,
        access@.grants.len() == access.grants@.len(),
        0 <= i < access.grants@.len() ==> access@.grants[i] == (GrantView {
            token: access.grants@[i].token@,
            namespace: access.grants@[i].namespace@,
            write: access.grants@[i].write,
        }),
{
}

} // verus!
