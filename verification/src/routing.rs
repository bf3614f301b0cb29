use vstd::prelude::*;
use vstd::string::*;

use crate::persistence::ConnectionConfig;

verus! {

/// A link as one stream sees it: the stream at the other end, and whether
/// the link is muted.
pub struct Link {
    peer: String,
    muted: bool,
}

/// An active stream with its links, in the order they were made.
pub struct Stream {
    name: String,
    links: Vec<Link>,
}

/// The routing state of the engine.
///
/// Each active capture stream ("input") keeps the list of playback streams it
/// feeds, and each active playback stream ("output") keeps the list of capture
/// streams that feed it, each link with its own mute flag.  The two lists are
/// kept mirrored: a link from `i` to `o` with flag `m` sits in the list of `i`
/// exactly when a link from `o` back to `i` with flag `m` sits in the list of
/// `o`, and no list names the same stream twice.
pub struct Router {
    inputs: Vec<Stream>,
    outputs: Vec<Stream>,
}

/// Why a link could not be made.
#[derive(Clone, Copy, Debug, PartialEq, Eq, Structural)]
pub enum RouteError {
    /// The capture stream of the link is not active.
    InputNotActive,
    /// The playback stream of the link is not active.
    OutputNotActive,
}

impl RouteError {
    /// The text shown to the user for this error.
    pub fn message(&self) -> (s: String)
        ensures
            s@ == route_error_text(*self),
    {
        match self {
            RouteError::InputNotActive => {
                proof {
                    reveal_strlit("Input init failed");
                }
                String::from_str("Input init failed")
            },
            RouteError::OutputNotActive => {
                proof {
                    reveal_strlit("Output init failed");
                }
                String::from_str("Output init failed")
            },
        }
    }
}

/// The text of each routing error.
pub open spec fn route_error_text(e: RouteError) -> Seq<char> {
    match e {
        RouteError::InputNotActive => seq!['I', 'n', 'p', 'u', 't', ' ', 'i', 'n', 'i', 't', ' ', 'f', 'a', 'i', 'l', 'e', 'd'],
        RouteError::OutputNotActive => seq!['O', 'u', 't', 'p', 'u', 't', ' ', 'i', 'n', 'i', 't', ' ', 'f', 'a', 'i', 'l', 'e', 'd'],
    }
}

// ---------------------------------------------------------------------------
// The routing map and what each operation does to it.
// ---------------------------------------------------------------------------

/// The routing map after `connect(input, output)` succeeds: a new link starts
/// unmuted, an existing one is left as it is.
pub open spec fn routes_after_connect(
    routes: Map<(Seq<char>, Seq<char>), bool>,
    input: Seq<char>,
    output: Seq<char>,
) -> Map<(Seq<char>, Seq<char>), bool> {
    if routes.contains_key((input, output)) {
        routes
    } else {
        routes.insert((input, output), false)
    }
}

/// The routing map after `disconnect(input, output)`.
pub open spec fn routes_after_disconnect(
    routes: Map<(Seq<char>, Seq<char>), bool>,
    input: Seq<char>,
    output: Seq<char>,
) -> Map<(Seq<char>, Seq<char>), bool> {
    routes.remove((input, output))
}

/// The routing map after `set_muted(input, output, muted)`: only an existing
/// link changes.
pub open spec fn routes_after_set_muted(
    routes: Map<(Seq<char>, Seq<char>), bool>,
    input: Seq<char>,
    output: Seq<char>,
    muted: bool,
) -> Map<(Seq<char>, Seq<char>), bool> {
    if routes.contains_key((input, output)) {
        routes.insert((input, output), muted)
    } else {
        routes
    }
}

/// What `is_muted(input, output)` reports for a routing map.
pub open spec fn reports_muted(
    routes: Map<(Seq<char>, Seq<char>), bool>,
    input: Seq<char>,
    output: Seq<char>,
) -> bool {
    routes.contains_key((input, output)) && routes[(input, output)]
}


// ---------------------------------------------------------------------------
// Laws of the routing map.
// ---------------------------------------------------------------------------

/// After `connect` succeeds the two streams are linked; a link that is made
/// new is unmuted, and a link that existed keeps its flag.
pub proof fn law_connect_links(
    routes: Map<(Seq<char>, Seq<char>), bool>,
    input: Seq<char>,
    output: Seq<char>,
)
    ensures
        routes_after_connect(routes, input, output).contains_key((input, output)),
        !routes.contains_key((input, output)) ==> !reports_muted(
            routes_after_connect(routes, input, output),
            input,
            output,
        ),
        routes.contains_key((input, output)) ==> routes_after_connect(routes, input, output)
            == routes,
{
}

/// Connecting the same pair twice is the same as connecting it once.
pub proof fn law_connect_idempotent(
    routes: Map<(Seq<char>, Seq<char>), bool>,
    input: Seq<char>,
    output: Seq<char>,
)
    ensures
        routes_after_connect(routes_after_connect(routes, input, output), input, output)
            == routes_after_connect(routes, input, output),
{
}

/// Disconnecting a pair that was just connected anew gives back the routing
/// map as it was before.
pub proof fn law_disconnect_undoes_connect(
    routes: Map<(Seq<char>, Seq<char>), bool>,
    input: Seq<char>,
    output: Seq<char>,
)
    requires
        !routes.contains_key((input, output)),
    ensures
        routes_after_disconnect(routes_after_connect(routes, input, output), input, output)
            == routes,
{
    assert(routes_after_disconnect(routes_after_connect(routes, input, output), input, output)
        =~= routes);
}

/// After `disconnect` the two streams are not linked, and `is_muted` reports
/// `false` for them.
pub proof fn law_disconnect_unlinks(
    routes: Map<(Seq<char>, Seq<char>), bool>,
    input: Seq<char>,
    output: Seq<char>,
)
    ensures
        !routes_after_disconnect(routes, input, output).contains_key((input, output)),
        !reports_muted(routes_after_disconnect(routes, input, output), input, output),
{
}

/// `is_muted` gives back what `set_muted` set on a linked pair; on a pair
/// that is not linked, `set_muted` links nothing and `is_muted` stays
/// `false`.
pub proof fn law_set_muted_then_is_muted(
    routes: Map<(Seq<char>, Seq<char>), bool>,
    input: Seq<char>,
    output: Seq<char>,
    muted: bool,
)
    ensures
        routes.contains_key((input, output)) ==> reports_muted(
            routes_after_set_muted(routes, input, output, muted),
            input,
            output,
        ) == muted,
        !routes.contains_key((input, output)) ==> !reports_muted(
            routes_after_set_muted(routes, input, output, muted),
            input,
            output,
        ),
        routes_after_set_muted(routes, input, output, muted).dom() == routes.dom(),
{
    assert(routes_after_set_muted(routes, input, output, muted).dom() =~= routes.dom());
}

/// Connecting, disconnecting and muting one pair leave every other pair as
/// it was.
pub proof fn law_one_pair_at_a_time(
    routes: Map<(Seq<char>, Seq<char>), bool>,
    input: Seq<char>,
    output: Seq<char>,
    muted: bool,
    other: (Seq<char>, Seq<char>),
)
    requires
        other != (input, output),
    ensures
        routes_after_connect(routes, input, output).contains_key(other) == routes.contains_key(
            other,
        ),
        routes_after_disconnect(routes, input, output).contains_key(other)
            == routes.contains_key(other),
        routes_after_set_muted(routes, input, output, muted).contains_key(other)
            == routes.contains_key(other),
        routes.contains_key(other) ==> {
            &&& routes_after_connect(routes, input, output)[other] == routes[other]
            &&& routes_after_disconnect(routes, input, output)[other] == routes[other]
            &&& routes_after_set_muted(routes, input, output, muted)[other] == routes[other]
        },
{
}

/// The routing map that replaying saved connections gives: each one is
/// connected in turn, then muted when it was saved muted.
pub open spec fn replay_connections(
    routes: Map<(Seq<char>, Seq<char>), bool>,
    conns: Seq<ConnectionConfig>,
) -> Map<(Seq<char>, Seq<char>), bool>
    decreases conns.len(),
{
    if conns.len() == 0 {
        routes
    } else {
        let c = conns.last();
        let linked = routes_after_connect(
            replay_connections(routes, conns.drop_last()),
            c.input@,
            c.output@,
        );
        if c.muted {
            routes_after_set_muted(linked, c.input@, c.output@, true)
        } else {
            linked
        }
    }
}

/// Whether `conns` lists the links of `routes` once each with their flags,
/// as `get_all_connections` does.
pub open spec fn lists_routes(
    conns: Seq<ConnectionConfig>,
    routes: Map<(Seq<char>, Seq<char>), bool>,
) -> bool {
    &&& forall|j: int|
        #![trigger conns[j]]
        0 <= j < conns.len() ==> routes.contains_key((conns[j].input@, conns[j].output@))
            && routes[(conns[j].input@, conns[j].output@)] == conns[j].muted
    &&& forall|key: (Seq<char>, Seq<char>)| #[trigger]
        routes.contains_key(key) ==> exists|j: int|
            0 <= j < conns.len() && #[trigger] conns[j].input@ == key.0 && conns[j].output@
                == key.1
    &&& forall|j1: int, j2: int|
        0 <= j1 < conns.len() && 0 <= j2 < conns.len() && j1 != j2 ==> (
        #[trigger] conns[j1].input@,
        conns[j1].output@,
    ) != (#[trigger] conns[j2].input@, conns[j2].output@)
}

spec fn conns_map(conns: Seq<ConnectionConfig>) -> Map<(Seq<char>, Seq<char>), bool> {
    Map::new(
        |key: (Seq<char>, Seq<char>)|
            exists|j: int|
                0 <= j < conns.len() && #[trigger] conns[j].input@ == key.0 && conns[j].output@
                    == key.1,
        |key: (Seq<char>, Seq<char>)|
            exists|j: int|
                0 <= j < conns.len() && #[trigger] conns[j].input@ == key.0 && conns[j].output@
                    == key.1 && conns[j].muted,
    )
}

proof fn lemma_replay_distinct(conns: Seq<ConnectionConfig>)
    requires
        forall|j1: int, j2: int|
            0 <= j1 < conns.len() && 0 <= j2 < conns.len() && j1 != j2 ==> (
            #[trigger] conns[j1].input@,
            conns[j1].output@,
        ) != (#[trigger] conns[j2].input@, conns[j2].output@),
    ensures
        replay_connections(Map::empty(), conns) == conns_map(conns),
    decreases conns.len(),
{
    if conns.len() == 0 {
        assert(conns_map(conns) =~= Map::empty());
    } else {
        let front = conns.drop_last();
        let c = conns.last();
        let n = front.len();
        assert forall|j1: int, j2: int|
            0 <= j1 < front.len() && 0 <= j2 < front.len() && j1 != j2 implies (
            #[trigger] front[j1].input@,
            front[j1].output@,
        ) != (#[trigger] front[j2].input@, front[j2].output@) by {
            assert(front[j1] == conns[j1]);
            assert(front[j2] == conns[j2]);
        }
        lemma_replay_distinct(front);
        let m1 = conns_map(front);
        let key = (c.input@, c.output@);
        if m1.contains_key(key) {
            let j = choose|j: int|
                0 <= j < front.len() && #[trigger] front[j].input@ == key.0 && front[j].output@
                    == key.1;
            assert(front[j] == conns[j]);
            assert(conns[n as int] == c);
        }
        let m2 = replay_connections(Map::empty(), conns);
        let target = conns_map(conns);
        assert forall|k: (Seq<char>, Seq<char>)| #[trigger]
            target.contains_key(k) == m2.contains_key(k) by {
            if target.contains_key(k) {
                let j = choose|j: int|
                    0 <= j < conns.len() && #[trigger] conns[j].input@ == k.0 && conns[j].output@
                        == k.1;
                if j < n {
                    assert(front[j] == conns[j]);
                }
            }
            if m1.contains_key(k) {
                let j = choose|j: int|
                    0 <= j < front.len() && #[trigger] front[j].input@ == k.0 && front[j].output@
                        == k.1;
                assert(front[j] == conns[j]);
            }
        }
        assert forall|k: (Seq<char>, Seq<char>)| #[trigger]
            target.contains_key(k) implies target[k] == m2[k] by {
            if k == key {
                assert(conns[n as int] == c);
                if c.muted {
                    assert(conns[n as int].input@ == k.0);
                }
                if target[k] {
                    let j = choose|j: int|
                        0 <= j < conns.len() && #[trigger] conns[j].input@ == k.0
                            && conns[j].output@ == k.1 && conns[j].muted;
                    if j < n {
                        assert(front[j] == conns[j]);
                    }
                }
            } else {
                if target[k] {
                    let j = choose|j: int|
                        0 <= j < conns.len() && #[trigger] conns[j].input@ == k.0
                            && conns[j].output@ == k.1 && conns[j].muted;
                    assert(j < n);
                    assert(front[j] == conns[j]);
                }
                if m1.contains_key(k) && m1[k] {
                    let j = choose|j: int|
                        0 <= j < front.len() && #[trigger] front[j].input@ == k.0
                            && front[j].output@ == k.1 && front[j].muted;
                    assert(front[j] == conns[j]);
                }
                if m1.contains_key(k) {
                    let j = choose|j: int|
                        0 <= j < front.len() && #[trigger] front[j].input@ == k.0
                            && front[j].output@ == k.1;
                    assert(front[j] == conns[j]);
                }
            }
        }
        assert(m2 =~= target);
    }
}

/// Saving and restoring the matrix: replaying, onto a router without links,
/// the connections that `get_all_connections` lists rebuilds the same
/// routing map, mute flags included.
pub proof fn law_restore_rebuilds_routes(
    routes: Map<(Seq<char>, Seq<char>), bool>,
    conns: Seq<ConnectionConfig>,
)
    requires
        lists_routes(conns, routes),
    ensures
        replay_connections(Map::empty(), conns) == routes,
{
    lemma_replay_distinct(conns);
    let m = conns_map(conns);
    assert forall|k: (Seq<char>, Seq<char>)| #[trigger] m.contains_key(k) == routes.contains_key(k) by {
        if m.contains_key(k) {
            let j = choose|j: int|
                0 <= j < conns.len() && #[trigger] conns[j].input@ == k.0 && conns[j].output@
                    == k.1;
            assert(routes.contains_key((conns[j].input@, conns[j].output@)));
        }
    }
    assert forall|k: (Seq<char>, Seq<char>)| #[trigger] m.contains_key(k) implies m[k] == routes[k] by {
        let j = choose|j: int|
            0 <= j < conns.len() && #[trigger] conns[j].input@ == k.0 && conns[j].output@ == k.1;
        assert(routes[(conns[j].input@, conns[j].output@)] == conns[j].muted);
        if m[k] {
            let j2 = choose|j2: int|
                0 <= j2 < conns.len() && #[trigger] conns[j2].input@ == k.0 && conns[j2].output@
                    == k.1 && conns[j2].muted;
            if j2 != j {
                assert((conns[j].input@, conns[j].output@) != (conns[j2].input@, conns[j2].output@));
            }
        }
    }
    assert(m =~= routes);
}

// ---------------------------------------------------------------------------
// Internal description of the two lists.
// ---------------------------------------------------------------------------

spec fn links_have(links: Seq<Link>, b: Seq<char>, m: bool) -> bool {
    exists|k: int| 0 <= k < links.len() && #[trigger] links[k].peer@ == b && links[k].muted == m
}

spec fn links_name(links: Seq<Link>, b: Seq<char>) -> bool {
    exists|k: int| 0 <= k < links.len() && #[trigger] links[k].peer@ == b
}

spec fn has_stream(streams: Seq<Stream>, a: Seq<char>) -> bool {
    exists|i: int| 0 <= i < streams.len() && #[trigger] streams[i].name@ == a
}

spec fn has_link(streams: Seq<Stream>, a: Seq<char>, b: Seq<char>, m: bool) -> bool {
    exists|i: int|
        0 <= i < streams.len() && #[trigger] streams[i].name@ == a && links_have(streams[i].links@, b, m)
}

spec fn distinct_names(streams: Seq<Stream>) -> bool {
    forall|i: int, j: int|
        0 <= i < streams.len() && 0 <= j < streams.len() && i != j ==> #[trigger] streams[i].name@
            != #[trigger] streams[j].name@
}

spec fn distinct_peers(links: Seq<Link>) -> bool {
    forall|k: int, l: int|
        0 <= k < links.len() && 0 <= l < links.len() && k != l ==> #[trigger] links[k].peer@
            != #[trigger] links[l].peer@
}

spec fn all_distinct_peers(streams: Seq<Stream>) -> bool {
    forall|i: int| 0 <= i < streams.len() ==> distinct_peers(#[trigger] streams[i].links@)
}

spec fn mirrored(from: Seq<Stream>, to: Seq<Stream>) -> bool {
    forall|a: Seq<char>, b: Seq<char>, m: bool| #[trigger]
        has_link(from, a, b, m) ==> has_link(to, b, a, m)
}

spec fn lists_ok(inputs: Seq<Stream>, outputs: Seq<Stream>) -> bool {
    &&& distinct_names(inputs)
    &&& distinct_names(outputs)
    &&& all_distinct_peers(inputs)
    &&& all_distinct_peers(outputs)
    &&& mirrored(inputs, outputs)
    &&& mirrored(outputs, inputs)
}

spec fn linked(streams: Seq<Stream>, a: Seq<char>, b: Seq<char>) -> bool {
    has_link(streams, a, b, true) || has_link(streams, a, b, false)
}

spec fn route_map(inputs: Seq<Stream>) -> Map<(Seq<char>, Seq<char>), bool> {
    Map::new(
        |key: (Seq<char>, Seq<char>)| linked(inputs, key.0, key.1),
        |key: (Seq<char>, Seq<char>)| has_link(inputs, key.0, key.1, true),
    )
}

spec fn stream_set(streams: Seq<Stream>) -> Set<Seq<char>> {
    Set::new(|a: Seq<char>| has_stream(streams, a))
}

impl Router {
    #[verifier::type_invariant]
    spec fn lists_mirrored(self) -> bool {
        lists_ok(self.inputs@, self.outputs@)
    }

    /// The links of the routing matrix: each (input, output) pair that is
    /// linked, with the link's mute flag.
    pub closed spec fn routes(self) -> Map<(Seq<char>, Seq<char>), bool> {
        route_map(self.inputs@)
    }

    /// The names of the active capture streams.
    pub closed spec fn active_inputs(self) -> Set<Seq<char>> {
        stream_set(self.inputs@)
    }

    /// The names of the active playback streams.
    pub closed spec fn active_outputs(self) -> Set<Seq<char>> {
        stream_set(self.outputs@)
    }
}

// ---------------------------------------------------------------------------
// Lemmas on the lists.
// ---------------------------------------------------------------------------

proof fn lemma_has_link_at(streams: Seq<Stream>, i: int, b: Seq<char>, m: bool)
    requires
        distinct_names(streams),
        0 <= i < streams.len(),
    ensures
        has_link(streams, streams[i].name@, b, m) == links_have(streams[i].links@, b, m),
{
    if has_link(streams, streams[i].name@, b, m) {
        let j = choose|j: int|
            0 <= j < streams.len() && #[trigger] streams[j].name@ == streams[i].name@ && links_have(
                streams[j].links@,
                b,
                m,
            );
        assert(streams[j].name@ == streams[i].name@);
    }
}

proof fn lemma_no_stream_no_link(streams: Seq<Stream>, a: Seq<char>, b: Seq<char>, m: bool)
    requires
        !has_stream(streams, a),
    ensures
        !has_link(streams, a, b, m),
{
    if has_link(streams, a, b, m) {
        let j = choose|j: int|
            0 <= j < streams.len() && #[trigger] streams[j].name@ == a && links_have(
                streams[j].links@,
                b,
                m,
            );
        assert(streams[j].name@ == a);
    }
}

/// In a list without repeated peers, a peer carries one flag only.
proof fn lemma_one_flag(links: Seq<Link>, b: Seq<char>)
    requires
        distinct_peers(links),
    ensures
        !(links_have(links, b, true) && links_have(links, b, false)),
{
    if links_have(links, b, true) && links_have(links, b, false) {
        let k = choose|k: int| 0 <= k < links.len() && #[trigger] links[k].peer@ == b && links[k].muted == true;
        let l = choose|l: int| 0 <= l < links.len() && #[trigger] links[l].peer@ == b && links[l].muted == false;
        assert(links[k].peer@ == links[l].peer@);
    }
}

/// Replacing the links of one stream leaves every link of the other streams.
proof fn lemma_replace_links(p1: Seq<Stream>, p2: Seq<Stream>, pi: int)
    requires
        distinct_names(p1),
        p1.len() == p2.len(),
        0 <= pi < p1.len(),
        p2[pi].name@ == p1[pi].name@,
        forall|i: int| 0 <= i < p1.len() && i != pi ==> #[trigger] p2[i] == p1[i],
    ensures
        distinct_names(p2),
        forall|a: Seq<char>| #[trigger] has_stream(p2, a) == has_stream(p1, a),
        forall|a: Seq<char>, b: Seq<char>, m: bool|
            a != p1[pi].name@ ==> #[trigger] has_link(p2, a, b, m) == has_link(p1, a, b, m),
        forall|b: Seq<char>, m: bool|
            #[trigger] has_link(p2, p1[pi].name@, b, m) == links_have(p2[pi].links@, b, m),
{
    assert forall|i: int, j: int|
        0 <= i < p2.len() && 0 <= j < p2.len() && i != j implies #[trigger] p2[i].name@
        != #[trigger] p2[j].name@ by {
        assert(p1[i].name@ != p1[j].name@);
    }
    assert forall|a: Seq<char>| #[trigger] has_stream(p2, a) == has_stream(p1, a) by {
        if has_stream(p1, a) {
            let i = choose|i: int| 0 <= i < p1.len() && #[trigger] p1[i].name@ == a;
            assert(p2[i].name@ == a);
        }
        if has_stream(p2, a) {
            let i = choose|i: int| 0 <= i < p2.len() && #[trigger] p2[i].name@ == a;
            assert(p1[i].name@ == a);
        }
    }
    assert forall|a: Seq<char>, b: Seq<char>, m: bool|
        a != p1[pi].name@ implies #[trigger] has_link(p2, a, b, m) == has_link(p1, a, b, m) by {
        if has_link(p1, a, b, m) {
            let i = choose|i: int|
                0 <= i < p1.len() && #[trigger] p1[i].name@ == a && links_have(p1[i].links@, b, m);
            assert(p2[i].name@ == a);
        }
        if has_link(p2, a, b, m) {
            let i = choose|i: int|
                0 <= i < p2.len() && #[trigger] p2[i].name@ == a && links_have(p2[i].links@, b, m);
            assert(p1[i].name@ == a);
        }
    }
    assert forall|b: Seq<char>, m: bool|
        #[trigger] has_link(p2, p1[pi].name@, b, m) == links_have(p2[pi].links@, b, m) by {
        lemma_has_link_at(p2, pi, b, m);
    }
}

// ---------------------------------------------------------------------------
// Searches.
// ---------------------------------------------------------------------------

fn find_stream(streams: &Vec<Stream>, name: &String) -> (r: Option<usize>)
    ensures
        match r {
            Some(i) => i < streams@.len() && streams@[i as int].name@ == name@,
            None => !has_stream(streams@, name@),
        },
{
    let mut i: usize = 0;
    while i < streams.len()
        invariant
            i <= streams@.len(),
            forall|j: int| 0 <= j < i ==> #[trigger] streams@[j].name@ != name@,
        decreases streams@.len() - i,
    {
        if streams[i].name == *name {
            return Some(i);
        }
        i = i + 1;
    }
    None
}

fn find_link(links: &Vec<Link>, peer: &String) -> (r: Option<usize>)
    ensures
        match r {
            Some(k) => k < links@.len() && links@[k as int].peer@ == peer@,
            None => !links_name(links@, peer@),
        },
{
    let mut k: usize = 0;
    while k < links.len()
        invariant
            k <= links@.len(),
            forall|j: int| 0 <= j < k ==> #[trigger] links@[j].peer@ != peer@,
        decreases links@.len() - k,
    {
        if links[k].peer == *peer {
            return Some(k);
        }
        k = k + 1;
    }
    None
}

proof fn lemma_links_name(links: Seq<Link>, b: Seq<char>, m: bool)
    ensures
        links_have(links, b, m) ==> links_name(links, b),
{
    if links_have(links, b, m) {
        let k = choose|k: int| 0 <= k < links.len() && #[trigger] links[k].peer@ == b && links[k].muted == m;
        assert(links[k].peer@ == b);
    }
}

proof fn lemma_link_found(links: Seq<Link>, k: int)
    requires
        0 <= k < links.len(),
    ensures
        links_have(links, links[k].peer@, links[k].muted),
{
    assert(links[k].peer@ == links[k].peer@);
}


proof fn lemma_links_push(links: Seq<Link>, x: Link)
    ensures
        forall|b: Seq<char>, m: bool|
            #[trigger] links_have(links.push(x), b, m) == (links_have(links, b, m) || (x.peer@ == b
                && x.muted == m)),
        distinct_peers(links) && !links_name(links, x.peer@) ==> distinct_peers(links.push(x)),
{
    let l2 = links.push(x);
    assert forall|b: Seq<char>, m: bool|
        #[trigger] links_have(l2, b, m) == (links_have(links, b, m) || (x.peer@ == b && x.muted
            == m)) by {
        if links_have(links, b, m) {
            let k = choose|k: int| 0 <= k < links.len() && #[trigger] links[k].peer@ == b && links[k].muted == m;
            assert(l2[k].peer@ == b);
        }
        if x.peer@ == b && x.muted == m {
            assert(l2[links.len() as int].peer@ == b);
        }
        if links_have(l2, b, m) {
            let k = choose|k: int| 0 <= k < l2.len() && #[trigger] l2[k].peer@ == b && l2[k].muted == m;
            if k < links.len() {
                assert(links[k].peer@ == b);
            }
        }
    }
    if distinct_peers(links) && !links_name(links, x.peer@) {
        assert forall|k: int, l: int|
            0 <= k < l2.len() && 0 <= l < l2.len() && k != l implies #[trigger] l2[k].peer@
            != #[trigger] l2[l].peer@ by {
            if k == links.len() {
                assert(links[l].peer@ == l2[l].peer@);
            } else if l == links.len() {
                assert(links[k].peer@ == l2[k].peer@);
            } else {
                assert(links[k].peer@ != links[l].peer@);
            }
        }
    }
}

proof fn lemma_links_update(links: Seq<Link>, k: int, x: Link)
    requires
        distinct_peers(links),
        0 <= k < links.len(),
        x.peer@ == links[k].peer@,
    ensures
        distinct_peers(links.update(k, x)),
        forall|b: Seq<char>, m: bool|
            #[trigger] links_have(links.update(k, x), b, m) == if b == x.peer@ {
                m == x.muted
            } else {
                links_have(links, b, m)
            },
{
    let l2 = links.update(k, x);
    assert forall|i: int, j: int|
        0 <= i < l2.len() && 0 <= j < l2.len() && i != j implies #[trigger] l2[i].peer@
        != #[trigger] l2[j].peer@ by {
        assert(links[i].peer@ != links[j].peer@);
    }
    assert forall|b: Seq<char>, m: bool|
        #[trigger] links_have(l2, b, m) == if b == x.peer@ {
            m == x.muted
        } else {
            links_have(links, b, m)
        } by {
        if b == x.peer@ {
            if m == x.muted {
                assert(l2[k].peer@ == b);
            }
            if links_have(l2, b, m) {
                let j = choose|j: int| 0 <= j < l2.len() && #[trigger] l2[j].peer@ == b && l2[j].muted == m;
                if j != k {
                    assert(links[j].peer@ != links[k].peer@);
                }
            }
        } else {
            if links_have(links, b, m) {
                let j = choose|j: int| 0 <= j < links.len() && #[trigger] links[j].peer@ == b && links[j].muted == m;
                assert(l2[j].peer@ == b);
            }
            if links_have(l2, b, m) {
                let j = choose|j: int| 0 <= j < l2.len() && #[trigger] l2[j].peer@ == b && l2[j].muted == m;
                assert(links[j].peer@ == b);
            }
        }
    }
}

/// The links of `links` except those with `peer`, in their order.
fn without_peer(links: &Vec<Link>, peer: &String) -> (r: Vec<Link>)
    requires
        distinct_peers(links@),
    ensures
        distinct_peers(r@),
        forall|b: Seq<char>, m: bool|
            #[trigger] links_have(r@, b, m) == (links_have(links@, b, m) && b != peer@),
{
    let mut r: Vec<Link> = Vec::new();
    let mut j: usize = 0;
    while j < links.len()
        invariant
            j <= links@.len(),
            distinct_peers(links@),
            distinct_peers(r@),
            forall|k: int|
                #![trigger r@[k]]
                0 <= k < r@.len() ==> exists|jj: int|
                    0 <= jj < j && #[trigger] links@[jj] == r@[k] && r@[k].peer@ != peer@,
            forall|jj: int|
                0 <= jj < j && #[trigger] links@[jj].peer@ != peer@ ==> exists|k: int|
                    0 <= k < r@.len() && #[trigger] r@[k] == links@[jj],
        decreases links@.len() - j,
    {
        if links[j].peer != *peer {
            let l = Link { peer: links[j].peer.clone(), muted: links[j].muted };
            let ghost r0 = r@;
            assert(l == links@[j as int]);
            r.push(l);
            assert forall|k: int, kk: int|
                0 <= k < r@.len() && 0 <= kk < r@.len() && k != kk implies #[trigger] r@[k].peer@
                != #[trigger] r@[kk].peer@ by {
                if k == r0.len() {
                    let jj = choose|jj: int| 0 <= jj < j && #[trigger] links@[jj] == r@[kk] && r@[kk].peer@ != peer@;
                    assert(links@[jj].peer@ != links@[j as int].peer@);
                } else if kk == r0.len() {
                    let jj = choose|jj: int| 0 <= jj < j && #[trigger] links@[jj] == r@[k] && r@[k].peer@ != peer@;
                    assert(links@[jj].peer@ != links@[j as int].peer@);
                } else {
                    assert(r0[k].peer@ != r0[kk].peer@);
                }
            }
            assert forall|k: int| #![trigger r@[k]] 0 <= k < r@.len() implies exists|jj: int|
                0 <= jj < j + 1 && #[trigger] links@[jj] == r@[k] && r@[k].peer@ != peer@ by {
                if k == r0.len() {
                    assert(links@[j as int] == r@[k]);
                } else {
                    let jj = choose|jj: int| 0 <= jj < j && #[trigger] links@[jj] == r0[k] && r0[k].peer@ != peer@;
                    assert(links@[jj] == r@[k]);
                }
            }
            assert forall|jj: int|
                0 <= jj < j + 1 && #[trigger] links@[jj].peer@ != peer@ implies exists|k: int|
                0 <= k < r@.len() && #[trigger] r@[k] == links@[jj] by {
                if jj == j {
                    assert(r@[r0.len() as int] == links@[jj]);
                } else {
                    let k = choose|k: int| 0 <= k < r0.len() && #[trigger] r0[k] == links@[jj];
                    assert(r@[k] == links@[jj]);
                }
            }
        }
        j = j + 1;
    }
    assert forall|b: Seq<char>, m: bool|
        #[trigger] links_have(r@, b, m) == (links_have(links@, b, m) && b != peer@) by {
        if links_have(r@, b, m) {
            let k = choose|k: int| 0 <= k < r@.len() && #[trigger] r@[k].peer@ == b && r@[k].muted == m;
            let jj = choose|jj: int| 0 <= jj < j && #[trigger] links@[jj] == r@[k] && r@[k].peer@ != peer@;
            assert(links@[jj].peer@ == b);
        }
        if links_have(links@, b, m) && b != peer@ {
            let jj = choose|jj: int| 0 <= jj < links@.len() && #[trigger] links@[jj].peer@ == b && links@[jj].muted == m;
            let k = choose|k: int| 0 <= k < r@.len() && #[trigger] r@[k] == links@[jj];
            assert(r@[k].peer@ == b);
        }
    }
    r
}


proof fn lemma_push_stream(p1: Seq<Stream>, p: Stream)
    requires
        distinct_names(p1),
        !has_stream(p1, p.name@),
        p.links@.len() == 0,
    ensures
        distinct_names(p1.push(p)),
        all_distinct_peers(p1) ==> all_distinct_peers(p1.push(p)),
        forall|a: Seq<char>| #[trigger] has_stream(p1.push(p), a) == (has_stream(p1, a) || a == p.name@),
        forall|a: Seq<char>, b: Seq<char>, m: bool|
            #[trigger] has_link(p1.push(p), a, b, m) == has_link(p1, a, b, m),
{
    let p2 = p1.push(p);
    assert forall|i: int, j: int|
        0 <= i < p2.len() && 0 <= j < p2.len() && i != j implies #[trigger] p2[i].name@
        != #[trigger] p2[j].name@ by {
        if i == p1.len() {
            assert(p1[j].name@ == p2[j].name@);
        } else if j == p1.len() {
            assert(p1[i].name@ == p2[i].name@);
        } else {
            assert(p1[i].name@ != p1[j].name@);
        }
    }
    if all_distinct_peers(p1) {
        assert forall|i: int| 0 <= i < p2.len() implies distinct_peers(#[trigger] p2[i].links@) by {
            if i < p1.len() {
                assert(distinct_peers(p1[i].links@));
            }
        }
    }
    assert forall|a: Seq<char>| #[trigger] has_stream(p2, a) == (has_stream(p1, a) || a == p.name@) by {
        if has_stream(p1, a) {
            let i = choose|i: int| 0 <= i < p1.len() && #[trigger] p1[i].name@ == a;
            assert(p2[i].name@ == a);
        }
        if a == p.name@ {
            assert(p2[p1.len() as int].name@ == a);
        }
        if has_stream(p2, a) {
            let i = choose|i: int| 0 <= i < p2.len() && #[trigger] p2[i].name@ == a;
            if i < p1.len() {
                assert(p1[i].name@ == a);
            }
        }
    }
    assert forall|a: Seq<char>, b: Seq<char>, m: bool|
        #[trigger] has_link(p2, a, b, m) == has_link(p1, a, b, m) by {
        if has_link(p1, a, b, m) {
            let i = choose|i: int|
                0 <= i < p1.len() && #[trigger] p1[i].name@ == a && links_have(p1[i].links@, b, m);
            assert(p2[i].name@ == a);
        }
        if has_link(p2, a, b, m) {
            let i = choose|i: int|
                0 <= i < p2.len() && #[trigger] p2[i].name@ == a && links_have(p2[i].links@, b, m);
            if i < p1.len() {
                assert(p1[i].name@ == a);
            } else {
                assert(p2[i].links@.len() == 0);
            }
        }
    }
}

/// Replacing the links of one stream by links that keep peers distinct keeps
/// every stream's peers distinct.
proof fn lemma_replace_keeps_peers(p1: Seq<Stream>, p2: Seq<Stream>, pi: int)
    requires
        all_distinct_peers(p1),
        p1.len() == p2.len(),
        0 <= pi < p1.len(),
        distinct_peers(p2[pi].links@),
        forall|i: int| 0 <= i < p1.len() && i != pi ==> #[trigger] p2[i] == p1[i],
    ensures
        all_distinct_peers(p2),
{
    assert forall|i: int| 0 <= i < p2.len() implies distinct_peers(#[trigger] p2[i].links@) by {
        if i != pi {
            assert(distinct_peers(p1[i].links@));
        }
    }
}

proof fn lemma_stream_links_distinct(streams: Seq<Stream>, i: int)
    requires
        all_distinct_peers(streams),
        0 <= i < streams.len(),
    ensures
        distinct_peers(streams[i].links@),
{
}

proof fn lemma_routes_equal(in1: Seq<Stream>, in2: Seq<Stream>, m2: Map<(Seq<char>, Seq<char>), bool>)
    requires
        forall|key: (Seq<char>, Seq<char>)| #[trigger]
            m2.contains_key(key) == linked(in2, key.0, key.1),
        forall|key: (Seq<char>, Seq<char>)|
            #[trigger] m2.contains_key(key) ==> m2[key] == has_link(in2, key.0, key.1, true),
    ensures
        route_map(in2) == m2,
{
    let rm = route_map(in2);
    assert forall|key: (Seq<char>, Seq<char>)| #[trigger] rm.contains_key(key) == m2.contains_key(key) by {
        assert(m2.contains_key(key) == linked(in2, key.0, key.1));
    }
    assert forall|key: (Seq<char>, Seq<char>)| #[trigger] rm.contains_key(key) implies rm[key] == m2[key] by {
        assert(m2.contains_key(key));
    }
    assert(rm =~= m2);
}


spec fn covered(src: Seq<(int, int)>, p: int, q: int) -> bool {
    exists|j: int| 0 <= j < src.len() && #[trigger] src[j] == (p, q)
}

spec fn entry_is(e: ConnectionConfig, name: Seq<char>, l: Link) -> bool {
    e.input@ == name && e.output@ == l.peer@ && e.muted == l.muted
}

/// Appends one entry per link of stream `st`, in the order of its links.
fn append_stream_links(st: &Stream, r: &mut Vec<ConnectionConfig>)
    ensures
        final(r)@.len() == old(r)@.len() + st.links@.len(),
        forall|j: int| 0 <= j < old(r)@.len() ==> #[trigger] final(r)@[j] == old(r)@[j],
        forall|q: int|
            #![trigger st.links@[q]]
            0 <= q < st.links@.len() ==> entry_is(
                final(r)@[old(r)@.len() + q],
                st.name@,
                st.links@[q],
            ),
{
    let ghost r0 = r@;
    let mut k: usize = 0;
    while k < st.links.len()
        invariant
            k <= st.links@.len(),
            r@.len() == r0.len() + k,
            forall|j: int| 0 <= j < r0.len() ==> #[trigger] r@[j] == r0[j],
            forall|q: int|
                #![trigger st.links@[q]]
                0 <= q < k ==> entry_is(r@[r0.len() + q], st.name@, st.links@[q]),
        decreases st.links@.len() - k,
    {
        let input = st.name.clone();
        let output = st.links[k].peer.clone();
        let entry = ConnectionConfig { input, output, muted: st.links[k].muted };
        let ghost r1 = r@;
        r.push(entry);
        proof {
            assert forall|q: int|
                #![trigger st.links@[q]]
                0 <= q < k + 1 implies entry_is(r@[r0.len() + q], st.name@, st.links@[q]) by {
                if q < k {
                    assert(r@[r0.len() + q] == r1[r0.len() + q]);
                } else {
                    assert(r@[r0.len() + q] == entry);
                }
            }
        }
        k = k + 1;
    }
}

// ---------------------------------------------------------------------------
// Operations.
// ---------------------------------------------------------------------------

impl Router {
    /// A router with no active stream and no link.
    pub fn new() -> (r: Router)
        ensures
            r.routes() == Map::<(Seq<char>, Seq<char>), bool>::empty(),
            r.active_inputs() == Set::<Seq<char>>::empty(),
            r.active_outputs() == Set::<Seq<char>>::empty(),
    {
        let r = Router { inputs: Vec::new(), outputs: Vec::new() };
        assert(r.routes() =~= Map::<(Seq<char>, Seq<char>), bool>::empty());
        assert(r.active_inputs() =~= Set::<Seq<char>>::empty());
        assert(r.active_outputs() =~= Set::<Seq<char>>::empty());
        r
    }


    /// Marks a capture stream active; returns whether it was not active yet.
    /// Links are not touched.
    pub fn add_input(&mut self, name: &str) -> (added: bool)
        ensures
            added == !old(self).active_inputs().contains(name@),
            final(self).active_inputs() == old(self).active_inputs().insert(name@),
            final(self).active_outputs() == old(self).active_outputs(),
            final(self).routes() == old(self).routes(),
    {
        let n = String::from_str(name);
        if find_stream(&self.inputs, &n).is_some() {
            proof {
                assert(old(self).active_inputs().insert(name@) =~= old(self).active_inputs());
            }
            return false;
        }
        let mut taken = Router { inputs: Vec::new(), outputs: Vec::new() };
        std::mem::swap(self, &mut taken);
        proof {
            use_type_invariant(&taken);
        }
        let Router { inputs: mut ins, outputs: outs } = taken;
        let ghost in1 = ins@;
        let st = Stream { name: n, links: Vec::new() };
        ins.push(st);
        proof {
            lemma_push_stream(in1, st);
            assert forall|a: Seq<char>, b: Seq<char>, mm: bool| #[trigger]
                has_link(outs@, a, b, mm) implies has_link(ins@, b, a, mm) by {
                assert(has_link(in1, b, a, mm));
            }
            assert(stream_set(ins@) =~= stream_set(in1).insert(name@));
            assert(route_map(ins@) =~= route_map(in1));
        }
        *self = Router { inputs: ins, outputs: outs };
        true
    }

    /// Marks a playback stream active; returns whether it was not active yet.
    /// Links are not touched.
    pub fn add_output(&mut self, name: &str) -> (added: bool)
        ensures
            added == !old(self).active_outputs().contains(name@),
            final(self).active_outputs() == old(self).active_outputs().insert(name@),
            final(self).active_inputs() == old(self).active_inputs(),
            final(self).routes() == old(self).routes(),
    {
        let n = String::from_str(name);
        if find_stream(&self.outputs, &n).is_some() {
            proof {
                assert(old(self).active_outputs().insert(name@) =~= old(self).active_outputs());
            }
            return false;
        }
        let mut taken = Router { inputs: Vec::new(), outputs: Vec::new() };
        std::mem::swap(self, &mut taken);
        proof {
            use_type_invariant(&taken);
        }
        let Router { inputs: ins, outputs: mut outs } = taken;
        let ghost out1 = outs@;
        let st = Stream { name: n, links: Vec::new() };
        outs.push(st);
        proof {
            lemma_push_stream(out1, st);
            assert forall|a: Seq<char>, b: Seq<char>, mm: bool| #[trigger]
                has_link(ins@, a, b, mm) implies has_link(outs@, b, a, mm) by {
                assert(has_link(out1, b, a, mm));
            }
            assert(stream_set(outs@) =~= stream_set(out1).insert(name@));
        }
        *self = Router { inputs: ins, outputs: outs };
        true
    }

    /// Links `input_name` to `output_name`, both of which must be active.
    /// Returns `Ok(true)` when a new, unmuted link was made and `Ok(false)`
    /// when the two were linked already (nothing changes then).
    pub fn connect(&mut self, input_name: &str, output_name: &str) -> (r: Result<bool, RouteError>)
        ensures
            match r {
                Err(RouteError::InputNotActive) => {
                    &&& !old(self).active_inputs().contains(input_name@)
                    &&& *final(self) == *old(self)
                },
                Err(RouteError::OutputNotActive) => {
                    &&& old(self).active_inputs().contains(input_name@)
                    &&& !old(self).active_outputs().contains(output_name@)
                    &&& *final(self) == *old(self)
                },
                Ok(added) => {
                    &&& old(self).active_inputs().contains(input_name@)
                    &&& old(self).active_outputs().contains(output_name@)
                    &&& added == !old(self).routes().contains_key((input_name@, output_name@))
                    &&& final(self).routes() == routes_after_connect(
                        old(self).routes(),
                        input_name@,
                        output_name@,
                    )
                    &&& final(self).active_inputs() == old(self).active_inputs()
                    &&& final(self).active_outputs() == old(self).active_outputs()
                },
            },
    {
        proof {
            use_type_invariant(&*self);
        }
        let i = String::from_str(input_name);
        let o = String::from_str(output_name);
        let pi = match find_stream(&self.inputs, &i) {
            None => {
                return Err(RouteError::InputNotActive);
            },
            Some(pi) => pi,
        };
        proof {
            assert(has_stream(self.inputs@, i@));
        }
        let qi = match find_stream(&self.outputs, &o) {
            None => {
                return Err(RouteError::OutputNotActive);
            },
            Some(qi) => qi,
        };
        proof {
            assert(has_stream(self.outputs@, o@));
            lemma_has_link_at(self.inputs@, pi as int, o@, true);
            lemma_has_link_at(self.inputs@, pi as int, o@, false);
        }
        if let Some(k) = find_link(&self.inputs[pi].links, &o) {
            proof {
                lemma_link_found(self.inputs@[pi as int].links@, k as int);
            }
            return Ok(false);
        }
        proof {
            lemma_links_name(self.inputs@[pi as int].links@, o@, true);
            lemma_links_name(self.inputs@[pi as int].links@, o@, false);
            // no link back from the playback side either
            lemma_has_link_at(self.outputs@, qi as int, i@, true);
            lemma_has_link_at(self.outputs@, qi as int, i@, false);
            if links_name(self.outputs@[qi as int].links@, i@) {
                let links = self.outputs@[qi as int].links@;
                let k = choose|k: int| 0 <= k < links.len() && #[trigger] links[k].peer@ == i@;
                lemma_link_found(links, k);
                assert(has_link(self.inputs@, i@, o@, links[k].muted));
            }
        }
        let mut taken = Router { inputs: Vec::new(), outputs: Vec::new() };
        std::mem::swap(self, &mut taken);
        let Router { inputs: mut ins, outputs: mut outs } = taken;
        let ghost in1 = ins@;
        let ghost out1 = outs@;
        let ghost ilinks = in1[pi as int].links@;
        let ghost olinks = out1[qi as int].links@;
        let to_output = Link { peer: o.clone(), muted: false };
        let to_input = Link { peer: i.clone(), muted: false };
        ins[pi].links.push(to_output);
        outs[qi].links.push(to_input);
        proof {
            lemma_stream_links_distinct(in1, pi as int);
            lemma_stream_links_distinct(out1, qi as int);
            lemma_links_push(ilinks, to_output);
            lemma_links_push(olinks, to_input);
            lemma_replace_links(in1, ins@, pi as int);
            lemma_replace_links(out1, outs@, qi as int);
            lemma_replace_keeps_peers(in1, ins@, pi as int);
            lemma_replace_keeps_peers(out1, outs@, qi as int);
            assert forall|a: Seq<char>, b: Seq<char>, mm: bool|
                #[trigger] has_link(ins@, a, b, mm) == (has_link(in1, a, b, mm) || (a == i@ && b
                    == o@ && mm == false)) by {
                if a == i@ {
                    lemma_has_link_at(in1, pi as int, b, mm);
                }
            }
            assert forall|a: Seq<char>, b: Seq<char>, mm: bool|
                #[trigger] has_link(outs@, a, b, mm) == (has_link(out1, a, b, mm) || (a == o@ && b
                    == i@ && mm == false)) by {
                if a == o@ {
                    lemma_has_link_at(out1, qi as int, b, mm);
                }
            }
            assert forall|a: Seq<char>, b: Seq<char>, mm: bool| #[trigger]
                has_link(ins@, a, b, mm) implies has_link(outs@, b, a, mm) by {
                if has_link(in1, a, b, mm) {
                    assert(has_link(out1, b, a, mm));
                }
            }
            assert forall|a: Seq<char>, b: Seq<char>, mm: bool| #[trigger]
                has_link(outs@, a, b, mm) implies has_link(ins@, b, a, mm) by {
                if has_link(out1, a, b, mm) {
                    assert(has_link(in1, b, a, mm));
                }
            }
            let m1 = route_map(in1);
            let m2 = routes_after_connect(m1, i@, o@);
            assert(!m1.contains_key((i@, o@)));
            assert forall|key: (Seq<char>, Seq<char>)| #[trigger]
                m2.contains_key(key) == linked(ins@, key.0, key.1) by {
                assert(has_link(ins@, key.0, key.1, true) == has_link(in1, key.0, key.1, true));
            }
            assert forall|key: (Seq<char>, Seq<char>)| #[trigger] m2.contains_key(key) implies m2[key]
                == has_link(ins@, key.0, key.1, true) by {
                assert(has_link(ins@, key.0, key.1, true) == has_link(in1, key.0, key.1, true));
            }
            lemma_routes_equal(in1, ins@, m2);
            assert(stream_set(ins@) =~= stream_set(in1));
            assert(stream_set(outs@) =~= stream_set(out1));
        }
        *self = Router { inputs: ins, outputs: outs };
        Ok(true)
    }


    /// Removes the link from `input_name` to `output_name`, on both sides,
    /// if there is one.  Active streams stay active.
    pub fn disconnect(&mut self, input_name: &str, output_name: &str)
        ensures
            final(self).routes() == routes_after_disconnect(
                old(self).routes(),
                input_name@,
                output_name@,
            ),
            final(self).active_inputs() == old(self).active_inputs(),
            final(self).active_outputs() == old(self).active_outputs(),
    {
        let i = String::from_str(input_name);
        let o = String::from_str(output_name);
        let mut taken = Router { inputs: Vec::new(), outputs: Vec::new() };
        std::mem::swap(self, &mut taken);
        proof {
            use_type_invariant(&taken);
        }
        let Router { inputs: mut ins, outputs: mut outs } = taken;
        let ghost in1 = ins@;
        let ghost out1 = outs@;
        match find_stream(&ins, &i) {
            Some(pi) => {
                proof {
                    lemma_stream_links_distinct(in1, pi as int);
                }
                let kept = without_peer(&ins[pi].links, &o);
                ins[pi].links = kept;
                proof {
                    lemma_replace_links(in1, ins@, pi as int);
                    lemma_replace_keeps_peers(in1, ins@, pi as int);
                    assert forall|a: Seq<char>, b: Seq<char>, mm: bool|
                        #[trigger] has_link(ins@, a, b, mm) == (has_link(in1, a, b, mm) && !(a
                            == i@ && b == o@)) by {
                        if a == i@ {
                            lemma_has_link_at(in1, pi as int, b, mm);
                        }
                    }
                }
            },
            None => {
                proof {
                    assert forall|a: Seq<char>, b: Seq<char>, mm: bool|
                        #[trigger] has_link(ins@, a, b, mm) == (has_link(in1, a, b, mm) && !(a
                            == i@ && b == o@)) by {
                        if a == i@ {
                            lemma_no_stream_no_link(in1, a, b, mm);
                        }
                    }
                }
            },
        }
        match find_stream(&outs, &o) {
            Some(qi) => {
                proof {
                    lemma_stream_links_distinct(out1, qi as int);
                }
                let kept = without_peer(&outs[qi].links, &i);
                outs[qi].links = kept;
                proof {
                    lemma_replace_links(out1, outs@, qi as int);
                    lemma_replace_keeps_peers(out1, outs@, qi as int);
                    assert forall|a: Seq<char>, b: Seq<char>, mm: bool|
                        #[trigger] has_link(outs@, a, b, mm) == (has_link(out1, a, b, mm) && !(a
                            == o@ && b == i@)) by {
                        if a == o@ {
                            lemma_has_link_at(out1, qi as int, b, mm);
                        }
                    }
                }
            },
            None => {
                proof {
                    assert forall|a: Seq<char>, b: Seq<char>, mm: bool|
                        #[trigger] has_link(outs@, a, b, mm) == (has_link(out1, a, b, mm) && !(a
                            == o@ && b == i@)) by {
                        if a == o@ {
                            lemma_no_stream_no_link(out1, a, b, mm);
                        }
                    }
                }
            },
        }
        proof {
            assert forall|a: Seq<char>, b: Seq<char>, mm: bool| #[trigger]
                has_link(ins@, a, b, mm) implies has_link(outs@, b, a, mm) by {
                assert(has_link(out1, b, a, mm));
            }
            assert forall|a: Seq<char>, b: Seq<char>, mm: bool| #[trigger]
                has_link(outs@, a, b, mm) implies has_link(ins@, b, a, mm) by {
                assert(has_link(in1, b, a, mm));
            }
            let m2 = routes_after_disconnect(route_map(in1), i@, o@);
            assert forall|key: (Seq<char>, Seq<char>)| #[trigger]
                m2.contains_key(key) == linked(ins@, key.0, key.1) by {
                assert(has_link(ins@, key.0, key.1, true) == (has_link(in1, key.0, key.1, true)
                    && !(key.0 == i@ && key.1 == o@)));
                assert(has_link(ins@, key.0, key.1, false) == (has_link(in1, key.0, key.1, false)
                    && !(key.0 == i@ && key.1 == o@)));
            }
            assert forall|key: (Seq<char>, Seq<char>)| #[trigger] m2.contains_key(key) implies m2[key]
                == has_link(ins@, key.0, key.1, true) by {
                assert(has_link(ins@, key.0, key.1, true) == (has_link(in1, key.0, key.1, true)
                    && !(key.0 == i@ && key.1 == o@)));
            }
            lemma_routes_equal(in1, ins@, m2);
            assert(stream_set(ins@) =~= stream_set(in1));
            assert(stream_set(outs@) =~= stream_set(out1));
        }
        *self = Router { inputs: ins, outputs: outs };
    }

    /// Sets the mute flag of the link from `input_name` to `output_name` on
    /// both sides; without such a link nothing changes.
    pub fn set_muted(&mut self, input_name: &str, output_name: &str, muted: bool)
        ensures
            final(self).routes() == routes_after_set_muted(
                old(self).routes(),
                input_name@,
                output_name@,
                muted,
            ),
            final(self).active_inputs() == old(self).active_inputs(),
            final(self).active_outputs() == old(self).active_outputs(),
    {
        proof {
            use_type_invariant(&*self);
        }
        let i = String::from_str(input_name);
        let o = String::from_str(output_name);
        let ghost m1 = route_map(self.inputs@);
        let pi = match find_stream(&self.inputs, &i) {
            None => {
                proof {
                    lemma_no_stream_no_link(self.inputs@, i@, o@, true);
                    lemma_no_stream_no_link(self.inputs@, i@, o@, false);
                    assert(routes_after_set_muted(m1, i@, o@, muted) =~= m1);
                }
                return;
            },
            Some(pi) => pi,
        };
        proof {
            lemma_has_link_at(self.inputs@, pi as int, o@, true);
            lemma_has_link_at(self.inputs@, pi as int, o@, false);
        }
        let k = match find_link(&self.inputs[pi].links, &o) {
            None => {
                proof {
                    lemma_links_name(self.inputs@[pi as int].links@, o@, true);
                    lemma_links_name(self.inputs@[pi as int].links@, o@, false);
                    assert(routes_after_set_muted(m1, i@, o@, muted) =~= m1);
                }
                return;
            },
            Some(k) => k,
        };
        let ghost old_flag = self.inputs@[pi as int].links@[k as int].muted;
        proof {
            lemma_link_found(self.inputs@[pi as int].links@, k as int);
            assert(has_link(self.inputs@, i@, o@, old_flag));
            assert(has_link(self.outputs@, o@, i@, old_flag));
        }
        let qi = match find_stream(&self.outputs, &o) {
            None => {
                proof {
                    lemma_no_stream_no_link(self.outputs@, o@, i@, old_flag);
                }
                return;
            },
            Some(qi) => qi,
        };
        proof {
            lemma_has_link_at(self.outputs@, qi as int, i@, old_flag);
            lemma_links_name(self.outputs@[qi as int].links@, i@, old_flag);
        }
        let l = match find_link(&self.outputs[qi].links, &i) {
            None => {
                return;
            },
            Some(l) => l,
        };
        let mut taken = Router { inputs: Vec::new(), outputs: Vec::new() };
        std::mem::swap(self, &mut taken);
        let Router { inputs: mut ins, outputs: mut outs } = taken;
        let ghost in1 = ins@;
        let ghost out1 = outs@;
        let ghost ilinks = in1[pi as int].links@;
        let ghost olinks = out1[qi as int].links@;
        let to_output = Link { peer: o.clone(), muted };
        let to_input = Link { peer: i.clone(), muted };
        ins[pi].links.set(k, to_output);
        outs[qi].links.set(l, to_input);
        proof {
            lemma_stream_links_distinct(in1, pi as int);
            lemma_stream_links_distinct(out1, qi as int);
            lemma_links_update(ilinks, k as int, to_output);
            lemma_links_update(olinks, l as int, to_input);
            lemma_replace_links(in1, ins@, pi as int);
            lemma_replace_links(out1, outs@, qi as int);
            lemma_replace_keeps_peers(in1, ins@, pi as int);
            lemma_replace_keeps_peers(out1, outs@, qi as int);
            assert forall|a: Seq<char>, b: Seq<char>, mm: bool|
                #[trigger] has_link(ins@, a, b, mm) == if a == i@ && b == o@ {
                    mm == muted
                } else {
                    has_link(in1, a, b, mm)
                } by {
                if a == i@ {
                    lemma_has_link_at(in1, pi as int, b, mm);
                }
            }
            assert forall|a: Seq<char>, b: Seq<char>, mm: bool|
                #[trigger] has_link(outs@, a, b, mm) == if a == o@ && b == i@ {
                    mm == muted
                } else {
                    has_link(out1, a, b, mm)
                } by {
                if a == o@ {
                    lemma_has_link_at(out1, qi as int, b, mm);
                }
            }
            assert forall|a: Seq<char>, b: Seq<char>, mm: bool| #[trigger]
                has_link(ins@, a, b, mm) implies has_link(outs@, b, a, mm) by {
                if !(a == i@ && b == o@) {
                    assert(has_link(out1, b, a, mm));
                }
            }
            assert forall|a: Seq<char>, b: Seq<char>, mm: bool| #[trigger]
                has_link(outs@, a, b, mm) implies has_link(ins@, b, a, mm) by {
                if !(a == o@ && b == i@) {
                    assert(has_link(in1, b, a, mm));
                }
            }
            let m2 = routes_after_set_muted(m1, i@, o@, muted);
            assert(m1.contains_key((i@, o@)));
            assert forall|key: (Seq<char>, Seq<char>)| #[trigger]
                m2.contains_key(key) == linked(ins@, key.0, key.1) by {
                if key.0 == i@ && key.1 == o@ {
                    assert(has_link(ins@, key.0, key.1, muted));
                }
            }
            assert forall|key: (Seq<char>, Seq<char>)| #[trigger] m2.contains_key(key) implies m2[key]
                == has_link(ins@, key.0, key.1, true) by {
                if !(key.0 == i@ && key.1 == o@) {
                    lemma_has_link_at(in1, pi as int, key.1, true);
                }
            }
            lemma_routes_equal(in1, ins@, m2);
            assert(stream_set(ins@) =~= stream_set(in1));
            assert(stream_set(outs@) =~= stream_set(out1));
        }
        *self = Router { inputs: ins, outputs: outs };
    }

    /// Drops every stream and every link.
    pub fn clear(&mut self)
        ensures
            final(self).routes() == Map::<(Seq<char>, Seq<char>), bool>::empty(),
            final(self).active_inputs() == Set::<Seq<char>>::empty(),
            final(self).active_outputs() == Set::<Seq<char>>::empty(),
    {
        *self = Router::new();
    }


    /// Every link of the matrix, once each, with its mute flag, listed stream
    /// by stream on the capture side.
    pub fn get_all_connections(&self) -> (r: Vec<ConnectionConfig>)
        ensures
            forall|j: int|
                #![trigger r@[j]]
                0 <= j < r@.len() ==> {
                    &&& self.routes().contains_key((r@[j].input@, r@[j].output@))
                    &&& self.routes()[(r@[j].input@, r@[j].output@)] == r@[j].muted
                    &&& self.active_inputs().contains(r@[j].input@)
                    &&& self.active_outputs().contains(r@[j].output@)
                },
            forall|key: (Seq<char>, Seq<char>)| #[trigger]
                self.routes().contains_key(key) ==> exists|j: int|
                    0 <= j < r@.len() && #[trigger] r@[j].input@ == key.0 && r@[j].output@ == key.1,
            forall|j1: int, j2: int|
                0 <= j1 < r@.len() && 0 <= j2 < r@.len() && j1 != j2 ==> (#[trigger] r@[j1].input@,
                r@[j1].output@) != (#[trigger] r@[j2].input@, r@[j2].output@),
    {
        proof {
            use_type_invariant(self);
        }
        let ghost streams = self.inputs@;
        let mut r: Vec<ConnectionConfig> = Vec::new();
        let ghost mut src: Seq<(int, int)> = Seq::empty();
        let mut pi: usize = 0;
        while pi < self.inputs.len()
            invariant
                streams == self.inputs@,
                pi <= streams.len(),
                r@.len() == src.len(),
                forall|j: int|
                    #![trigger src[j]]
                    0 <= j < src.len() ==> 0 <= src[j].0 < pi && 0 <= src[j].1 < streams[src[j].0].links@.len()
                        && entry_is(r@[j], streams[src[j].0].name@, streams[src[j].0].links@[src[j].1]),
                forall|j1: int, j2: int|
                    0 <= j1 < src.len() && 0 <= j2 < src.len() && j1 != j2 ==> #[trigger] src[j1]
                        != #[trigger] src[j2],
                forall|p: int, q: int|
                    0 <= p < pi && 0 <= q < streams[p].links@.len() ==> #[trigger] covered(src, p, q),
            decreases streams.len() - pi,
        {
            let ghost r0 = r@;
            let ghost src0 = src;
            let ghost n = streams[pi as int].links@.len();
            append_stream_links(&self.inputs[pi], &mut r);
            proof {
                src = src0 + Seq::new(n, |q: int| (pi as int, q));
                assert forall|j: int|
                    #![trigger src[j]]
                    0 <= j < src.len() implies 0 <= src[j].0 < pi + 1 && 0 <= src[j].1
                        < streams[src[j].0].links@.len() && entry_is(
                        r@[j],
                        streams[src[j].0].name@,
                        streams[src[j].0].links@[src[j].1],
                    ) by {
                    if j < src0.len() {
                        assert(src[j] == src0[j]);
                        assert(r@[j] == r0[j]);
                    } else {
                        let q = j - src0.len();
                        assert(src[j] == (pi as int, q));
                        assert(streams[pi as int].links@[q] == streams[pi as int].links@[q]);
                    }
                }
                assert forall|j1: int, j2: int|
                    0 <= j1 < src.len() && 0 <= j2 < src.len() && j1 != j2 implies #[trigger] src[j1]
                        != #[trigger] src[j2] by {
                    if j1 < src0.len() && j2 < src0.len() {
                        assert(src0[j1] != src0[j2]);
                    } else if j1 < src0.len() {
                        assert(src0[j1].0 < pi);
                    } else if j2 < src0.len() {
                        assert(src0[j2].0 < pi);
                    }
                }
                assert forall|p: int, q: int|
                    0 <= p < pi + 1 && 0 <= q < streams[p].links@.len() implies #[trigger] covered(
                        src,
                        p,
                        q,
                    ) by {
                    if p == pi {
                        assert(src[src0.len() + q] == (p, q));
                    } else {
                        assert(covered(src0, p, q));
                        let j = choose|j: int| 0 <= j < src0.len() && #[trigger] src0[j] == (p, q);
                        assert(src[j] == src0[j]);
                    }
                }
            }
            pi = pi + 1;
        }
        proof {
            use_type_invariant(self);
            let m = route_map(streams);
            assert forall|j: int|
                #![trigger r@[j]]
                0 <= j < r@.len() implies {
                    &&& m.contains_key((r@[j].input@, r@[j].output@))
                    &&& m[(r@[j].input@, r@[j].output@)] == r@[j].muted
                    &&& stream_set(streams).contains(r@[j].input@)
                    &&& stream_set(self.outputs@).contains(r@[j].output@)
                } by {
                let (p, q) = src[j];
                let links = streams[p].links@;
                lemma_link_found(links, q);
                lemma_has_link_at(streams, p, r@[j].output@, true);
                lemma_has_link_at(streams, p, r@[j].output@, false);
                lemma_one_flag(links, r@[j].output@);
                assert(streams[p].name@ == r@[j].input@);
                assert(has_link(self.outputs@, r@[j].output@, r@[j].input@, r@[j].muted));
                let qi = choose|qi: int|
                    0 <= qi < self.outputs@.len() && #[trigger] self.outputs@[qi].name@
                        == r@[j].output@ && links_have(
                        self.outputs@[qi].links@,
                        r@[j].input@,
                        r@[j].muted,
                    );
            }
            assert forall|key: (Seq<char>, Seq<char>)| #[trigger]
                m.contains_key(key) implies exists|j: int|
                    0 <= j < r@.len() && #[trigger] r@[j].input@ == key.0 && r@[j].output@ == key.1 by {
                let mm = has_link(streams, key.0, key.1, true);
                let p = choose|p: int|
                    0 <= p < streams.len() && #[trigger] streams[p].name@ == key.0 && links_have(
                        streams[p].links@,
                        key.1,
                        mm,
                    );
                let q = choose|q: int|
                    0 <= q < streams[p].links@.len() && #[trigger] streams[p].links@[q].peer@ == key.1
                        && streams[p].links@[q].muted == mm;
                assert(covered(src, p, q));
                let j = choose|j: int| 0 <= j < src.len() && #[trigger] src[j] == (p, q);
                assert(r@[j].input@ == key.0);
            }
            assert forall|j1: int, j2: int|
                0 <= j1 < r@.len() && 0 <= j2 < r@.len() && j1 != j2 implies (#[trigger] r@[j1].input@,
                r@[j1].output@) != (#[trigger] r@[j2].input@, r@[j2].output@) by {
                let (p1, q1) = src[j1];
                let (p2, q2) = src[j2];
                assert(src[j1] != src[j2]);
                if r@[j1].input@ == r@[j2].input@ && r@[j1].output@ == r@[j2].output@ {
                    assert(streams[p1].name@ == streams[p2].name@);
                    assert(p1 == p2);
                    lemma_stream_links_distinct(streams, p1);
                    assert(streams[p1].links@[q1].peer@ == streams[p1].links@[q2].peer@);
                }
            }
        }
        r
    }


    /// The decision of switching the audio host: switching to the host in
    /// use (same name) keeps everything and returns `false`; switching to
    /// another host drops every stream and link and returns `true`.
    pub fn switch_host(&mut self, current_host: &str, requested_host: &str) -> (switched: bool)
        ensures
            switched == (current_host@ != requested_host@),
            !switched ==> *final(self) == *old(self),
            switched ==> final(self).routes() == Map::<(Seq<char>, Seq<char>), bool>::empty(),
            switched ==> final(self).active_inputs() == Set::<Seq<char>>::empty(),
            switched ==> final(self).active_outputs() == Set::<Seq<char>>::empty(),
    {
        let current = String::from_str(current_host);
        let requested = String::from_str(requested_host);
        if current == requested {
            return false;
        }
        self.clear();
        true
    }

    /// Whether a capture stream of this name is active.
    pub fn has_input(&self, name: &str) -> (b: bool)
        ensures
            b == self.active_inputs().contains(name@),
    {
        let n = String::from_str(name);
        find_stream(&self.inputs, &n).is_some()
    }

    /// Whether a playback stream of this name is active.
    pub fn has_output(&self, name: &str) -> (b: bool)
        ensures
            b == self.active_outputs().contains(name@),
    {
        let n = String::from_str(name);
        find_stream(&self.outputs, &n).is_some()
    }

    /// Whether `input_name` feeds `output_name`.
    pub fn is_connected(&self, input_name: &str, output_name: &str) -> (b: bool)
        ensures
            b == self.routes().contains_key((input_name@, output_name@)),
    {
        proof {
            use_type_invariant(self);
        }
        let i = String::from_str(input_name);
        let o = String::from_str(output_name);
        let ghost key = (input_name@, output_name@);
        match find_stream(&self.inputs, &i) {
            None => {
                proof {
                    lemma_no_stream_no_link(self.inputs@, i@, o@, true);
                    lemma_no_stream_no_link(self.inputs@, i@, o@, false);
                }
                false
            },
            Some(pi) => {
                let found = find_link(&self.inputs[pi].links, &o);
                proof {
                    let streams = self.inputs@;
                    lemma_has_link_at(streams, pi as int, o@, true);
                    lemma_has_link_at(streams, pi as int, o@, false);
                    lemma_links_name(streams[pi as int].links@, o@, true);
                    lemma_links_name(streams[pi as int].links@, o@, false);
                    if let Some(k) = found {
                        lemma_link_found(streams[pi as int].links@, k as int);
                    }
                }
                found.is_some()
            },
        }
    }

    /// Whether the link from `input_name` to `output_name` is muted; `false`
    /// when there is no such link.  The playback side of the link answers.
    pub fn is_muted(&self, input_name: &str, output_name: &str) -> (b: bool)
        ensures
            b == reports_muted(self.routes(), input_name@, output_name@),
    {
        proof {
            use_type_invariant(self);
        }
        let i = String::from_str(input_name);
        let o = String::from_str(output_name);
        proof {
            // what the playback side holds is what the capture side holds
            assert(has_link(self.outputs@, o@, i@, true) == has_link(self.inputs@, i@, o@, true));
            assert(has_link(self.outputs@, o@, i@, false) == has_link(self.inputs@, i@, o@, false));
        }
        match find_stream(&self.outputs, &o) {
            None => {
                proof {
                    lemma_no_stream_no_link(self.outputs@, o@, i@, true);
                    lemma_no_stream_no_link(self.outputs@, o@, i@, false);
                }
                false
            },
            Some(qi) => {
                match find_link(&self.outputs[qi].links, &i) {
                    None => {
                        proof {
                            let streams = self.outputs@;
                            lemma_has_link_at(streams, qi as int, i@, true);
                            lemma_has_link_at(streams, qi as int, i@, false);
                            lemma_links_name(streams[qi as int].links@, i@, true);
                            lemma_links_name(streams[qi as int].links@, i@, false);
                        }
                        false
                    },
                    Some(k) => {
                        proof {
                            let streams = self.outputs@;
                            let links = streams[qi as int].links@;
                            lemma_has_link_at(streams, qi as int, i@, true);
                            lemma_has_link_at(streams, qi as int, i@, false);
                            lemma_link_found(links, k as int);
                            lemma_one_flag(links, i@);
                        }
                        self.outputs[qi].links[k].muted
                    },
                }
            },
        }
    }
}

} // verus!
