//! The attached-client table.
//!
//! Editor front-ends attach to one file each over local IPC.  The router
//! looks clients up two ways: by the client's socket address (unique) when a
//! message arrives from it, and by file path (set-valued) when an edit must
//! fan out to everyone on that file.  The table therefore keeps two indices
//! and maintains their consistency: every client indexed by address sits in
//! the bucket for its path, and every bucket member is indexed by its
//! address, with the same record on both sides.

use vstd::prelude::*;

use crate::addr::Addr;
use crate::paths::{is_rel_path, RelPath};

verus! {

/// Identity of an attached editor client: the file it is attached to, the
/// address of its IPC socket, and its self-description.
#[derive(Debug, PartialEq, Eq, Hash)]
pub struct AttachedIpcClientInfo {
    pub path: RelPath,
    pub addr: Addr,
    pub desc: String,
}

/// The mathematical value of an [`AttachedIpcClientInfo`].
pub struct ClientInfoV {
    pub path: Seq<char>,
    pub addr: Addr,
    pub desc: Seq<char>,
}

impl View for AttachedIpcClientInfo {
    type V = ClientInfoV;

    open spec fn view(&self) -> ClientInfoV {
        ClientInfoV { path: self.path@, addr: self.addr, desc: self.desc@ }
    }
}

impl Clone for AttachedIpcClientInfo {
    fn clone(&self) -> (r: Self)
        ensures
            r@ == self@,
    {
        AttachedIpcClientInfo { path: self.path.clone(), addr: self.addr, desc: self.desc.clone() }
    }
}

/// An attached editor client.  Its reply channel is owned by the process
/// that runs the sockets, keyed by the address recorded here.
#[derive(Debug, PartialEq, Eq)]
pub struct AttachedIpcClient {
    pub info: AttachedIpcClientInfo,
}

impl View for AttachedIpcClient {
    type V = ClientInfoV;

    open spec fn view(&self) -> ClientInfoV {
        self.info@
    }
}

impl Clone for AttachedIpcClient {
    fn clone(&self) -> (r: Self)
        ensures
            r@ == self@,
    {
        AttachedIpcClient { info: self.info.clone() }
    }
}

/// The views of a sequence of clients.
pub open spec fn client_views(s: Seq<AttachedIpcClient>) -> Seq<ClientInfoV> {
    s.map_values(|c: AttachedIpcClient| c@)
}

/// The by-address map a client sequence denotes; later entries win.
pub open spec fn addr_map_of(s: Seq<AttachedIpcClient>) -> Map<Addr, ClientInfoV>
    decreases s.len(),
{
    if s.len() == 0 {
        Map::empty()
    } else {
        addr_map_of(s.drop_last()).insert(s.last().info.addr, s.last()@)
    }
}

/// The by-path bucket map a bucket list denotes; later entries win.
pub open spec fn buckets_map_of(s: Seq<(RelPath, Vec<AttachedIpcClient>)>) -> Map<
    Seq<char>,
    Seq<ClientInfoV>,
>
    decreases s.len(),
{
    if s.len() == 0 {
        Map::empty()
    } else {
        buckets_map_of(s.drop_last()).insert(s.last().0@, client_views(s.last().1@))
    }
}

/// The dual-index membership table of attached editor clients.
#[derive(Debug)]
pub struct AttachedClients {
    by_path: Vec<(RelPath, Vec<AttachedIpcClient>)>,
    by_addr: Vec<AttachedIpcClient>,
}

/// The views of one bucket, as a set.
pub open spec fn set_of_views(v: Seq<ClientInfoV>) -> Set<ClientInfoV>
    decreases v.len(),
{
    if v.len() == 0 {
        Set::empty()
    } else {
        set_of_views(v.drop_last()).insert(v.last())
    }
}

/// The bucket of views recorded for `path`, empty when no bucket exists.
pub open spec fn bucket_of(
    bp: Seq<(RelPath, Vec<AttachedIpcClient>)>,
    path: Seq<char>,
) -> Seq<ClientInfoV> {
    if buckets_map_of(bp).contains_key(path) {
        buckets_map_of(bp)[path]
    } else {
        Seq::empty()
    }
}

/// The dual-index invariant, over the two raw index sequences: addresses
/// unique in the by-address index; bucket keys unique; buckets nonempty,
/// homogeneous in path, and without repeated addresses; every by-address
/// record a member of the bucket for its path; every bucket member indexed
/// by its address with the same record.
pub open spec fn wf_parts(
    ba: Seq<AttachedIpcClient>,
    bp: Seq<(RelPath, Vec<AttachedIpcClient>)>,
) -> bool {
    &&& forall|a: int, b: int| 0 <= a < b < ba.len() ==> ba[a].info.addr != ba[b].info.addr
    &&& forall|i: int| 0 <= i < ba.len() ==> is_rel_path(#[trigger] ba[i].info.path@)
    &&& forall|a: int, b: int| 0 <= a < b < bp.len() ==> bp[a].0@ != bp[b].0@
    &&& forall|i: int| 0 <= i < bp.len() ==> #[trigger] bp[i].1@.len() > 0
    &&& forall|i: int, j: int|
        0 <= i < bp.len() && 0 <= j < bp[i].1@.len() ==> (#[trigger] bp[i].1@[j])@.path
            == bp[i].0@
    &&& forall|i: int, a: int, b: int|
        0 <= i < bp.len() && 0 <= a < b < bp[i].1@.len() ==> (#[trigger] bp[i].1@[a]).info.addr
            != (#[trigger] bp[i].1@[b]).info.addr
    &&& forall|i: int|
        0 <= i < ba.len() ==> buckets_map_of(bp).contains_key((#[trigger] ba[i]).info.path@)
            && set_of_views(buckets_map_of(bp)[ba[i].info.path@]).contains(ba[i]@)
    &&& forall|j: int, l: int|
        0 <= j < bp.len() && 0 <= l < bp[j].1@.len() ==> addr_map_of(ba).contains_key(
            (#[trigger] bp[j].1@[l]).info.addr,
        ) && addr_map_of(ba)[bp[j].1@[l].info.addr] == bp[j].1@[l]@
}

proof fn lemma_addr_map_domain(s: Seq<AttachedIpcClient>, a: Addr)
    ensures
        addr_map_of(s).contains_key(a) <==> exists|i: int|
            0 <= i < s.len() && #[trigger] s[i].info.addr == a,
    decreases s.len(),
{
    if s.len() > 0 {
        lemma_addr_map_domain(s.drop_last(), a);
        if s.last().info.addr == a {
            assert(s[s.len() - 1].info.addr == a);
        } else {
            if addr_map_of(s).contains_key(a) {
                let i = choose|i: int|
                    0 <= i < s.drop_last().len() && #[trigger] s.drop_last()[i].info.addr == a;
                assert(s[i].info.addr == a);
            }
            if exists|i: int| 0 <= i < s.len() && #[trigger] s[i].info.addr == a {
                let i = choose|i: int| 0 <= i < s.len() && #[trigger] s[i].info.addr == a;
                assert(s.drop_last()[i].info.addr == a);
            }
        }
    }
}

proof fn lemma_addr_map_at(s: Seq<AttachedIpcClient>, i: int)
    requires
        forall|a: int, b: int| 0 <= a < b < s.len() ==> s[a].info.addr != s[b].info.addr,
        0 <= i < s.len(),
    ensures
        addr_map_of(s).contains_key(s[i].info.addr),
        addr_map_of(s)[s[i].info.addr] == s[i]@,
    decreases s.len(),
{
    if i < s.len() - 1 {
        assert(forall|a: int, b: int| 0 <= a < b < s.drop_last().len() ==>
            s.drop_last()[a].info.addr != s.drop_last()[b].info.addr);
        lemma_addr_map_at(s.drop_last(), i);
        assert(s.drop_last()[i] == s[i]);
        assert(s[i].info.addr != s.last().info.addr);
    }
}

proof fn lemma_buckets_map_domain(s: Seq<(RelPath, Vec<AttachedIpcClient>)>, k: Seq<char>)
    ensures
        buckets_map_of(s).contains_key(k) <==> exists|i: int|
            0 <= i < s.len() && #[trigger] s[i].0@ == k,
    decreases s.len(),
{
    if s.len() > 0 {
        lemma_buckets_map_domain(s.drop_last(), k);
        if s.last().0@ == k {
            assert(s[s.len() - 1].0@ == k);
        } else {
            if buckets_map_of(s).contains_key(k) {
                let i = choose|i: int|
                    0 <= i < s.drop_last().len() && #[trigger] s.drop_last()[i].0@ == k;
                assert(s[i].0@ == k);
            }
            if exists|i: int| 0 <= i < s.len() && #[trigger] s[i].0@ == k {
                let i = choose|i: int| 0 <= i < s.len() && #[trigger] s[i].0@ == k;
                assert(s.drop_last()[i].0@ == k);
            }
        }
    }
}

proof fn lemma_buckets_map_at(s: Seq<(RelPath, Vec<AttachedIpcClient>)>, i: int)
    requires
        forall|a: int, b: int| 0 <= a < b < s.len() ==> s[a].0@ != s[b].0@,
        0 <= i < s.len(),
    ensures
        buckets_map_of(s).contains_key(s[i].0@),
        buckets_map_of(s)[s[i].0@] == client_views(s[i].1@),
    decreases s.len(),
{
    if i < s.len() - 1 {
        assert(forall|a: int, b: int| 0 <= a < b < s.drop_last().len() ==>
            s.drop_last()[a].0@ != s.drop_last()[b].0@);
        lemma_buckets_map_at(s.drop_last(), i);
        assert(s.drop_last()[i] == s[i]);
        assert(s[i].0@ != s.last().0@);
    }
}

proof fn lemma_addr_map_remove(s: Seq<AttachedIpcClient>, i: int)
    requires
        forall|a: int, b: int| 0 <= a < b < s.len() ==> s[a].info.addr != s[b].info.addr,
        0 <= i < s.len(),
    ensures
        addr_map_of(s.remove(i)) == addr_map_of(s).remove(s[i].info.addr),
    decreases s.len(),
{
    if i == s.len() - 1 {
        assert(s.remove(i) =~= s.drop_last());
        lemma_addr_map_domain(s.drop_last(), s[i].info.addr);
        assert(forall|j: int| 0 <= j < s.drop_last().len() ==>
            (#[trigger] s.drop_last()[j]).info.addr == s[j].info.addr);
        assert(!addr_map_of(s.drop_last()).contains_key(s[i].info.addr));
        assert(addr_map_of(s.remove(i)) =~= addr_map_of(s).remove(s[i].info.addr));
    } else {
        assert(forall|a: int, b: int| 0 <= a < b < s.drop_last().len() ==>
            s.drop_last()[a].info.addr != s.drop_last()[b].info.addr);
        lemma_addr_map_remove(s.drop_last(), i);
        assert(s.remove(i).drop_last() =~= s.drop_last().remove(i));
        assert(s.remove(i).last() == s.last());
        assert(s[i].info.addr != s.last().info.addr);
        assert(addr_map_of(s.remove(i)) =~= addr_map_of(s).remove(s[i].info.addr));
    }
}

proof fn lemma_buckets_map_remove(s: Seq<(RelPath, Vec<AttachedIpcClient>)>, i: int)
    requires
        forall|a: int, b: int| 0 <= a < b < s.len() ==> s[a].0@ != s[b].0@,
        0 <= i < s.len(),
    ensures
        buckets_map_of(s.remove(i)) == buckets_map_of(s).remove(s[i].0@),
    decreases s.len(),
{
    if i == s.len() - 1 {
        assert(s.remove(i) =~= s.drop_last());
        lemma_buckets_map_domain(s.drop_last(), s[i].0@);
        assert(forall|j: int| 0 <= j < s.drop_last().len() ==>
            (#[trigger] s.drop_last()[j]).0@ == s[j].0@);
        assert(!buckets_map_of(s.drop_last()).contains_key(s[i].0@));
        assert(buckets_map_of(s.remove(i)) =~= buckets_map_of(s).remove(s[i].0@));
    } else {
        assert(forall|a: int, b: int| 0 <= a < b < s.drop_last().len() ==>
            s.drop_last()[a].0@ != s.drop_last()[b].0@);
        lemma_buckets_map_remove(s.drop_last(), i);
        assert(s.remove(i).drop_last() =~= s.drop_last().remove(i));
        assert(s.remove(i).last() == s.last());
        assert(s[i].0@ != s.last().0@);
        assert(buckets_map_of(s.remove(i)) =~= buckets_map_of(s).remove(s[i].0@));
    }
}

proof fn lemma_buckets_map_update(
    s: Seq<(RelPath, Vec<AttachedIpcClient>)>,
    i: int,
    pair: (RelPath, Vec<AttachedIpcClient>),
)
    requires
        forall|a: int, b: int| 0 <= a < b < s.len() ==> s[a].0@ != s[b].0@,
        0 <= i < s.len(),
        pair.0@ == s[i].0@,
    ensures
        buckets_map_of(s.update(i, pair)) == buckets_map_of(s).insert(
            s[i].0@,
            client_views(pair.1@),
        ),
    decreases s.len(),
{
    if i == s.len() - 1 {
        assert(s.update(i, pair).drop_last() =~= s.drop_last());
        assert(s.update(i, pair).last() == pair);
        assert(buckets_map_of(s.update(i, pair)) =~= buckets_map_of(s).insert(
            s[i].0@,
            client_views(pair.1@),
        ));
    } else {
        assert(forall|a: int, b: int| 0 <= a < b < s.drop_last().len() ==>
            s.drop_last()[a].0@ != s.drop_last()[b].0@);
        lemma_buckets_map_update(s.drop_last(), i, pair);
        assert(s.update(i, pair).drop_last() =~= s.drop_last().update(i, pair));
        assert(s.update(i, pair).last() == s.last());
        assert(s[i].0@ != s.last().0@);
        assert(buckets_map_of(s.update(i, pair)) =~= buckets_map_of(s).insert(
            s[i].0@,
            client_views(pair.1@),
        ));
    }
}

proof fn lemma_set_of_views_at(v: Seq<ClientInfoV>, i: int)
    requires
        0 <= i < v.len(),
    ensures
        set_of_views(v).contains(v[i]),
    decreases v.len(),
{
    if i < v.len() - 1 {
        lemma_set_of_views_at(v.drop_last(), i);
    }
}

proof fn lemma_set_of_views_membership(v: Seq<ClientInfoV>, x: ClientInfoV)
    requires
        set_of_views(v).contains(x),
    ensures
        exists|i: int| 0 <= i < v.len() && v[i] == x,
    decreases v.len(),
{
    if v.len() > 0 {
        if v.last() == x {
            assert(v[v.len() - 1] == x);
        } else {
            lemma_set_of_views_membership(v.drop_last(), x);
            let i = choose|i: int| 0 <= i < v.drop_last().len() && v.drop_last()[i] == x;
            assert(v[i] == x);
        }
    }
}

proof fn lemma_set_of_views_not_contains(v: Seq<ClientInfoV>, x: ClientInfoV)
    requires
        forall|i: int| 0 <= i < v.len() ==> (#[trigger] v[i]).addr != x.addr,
    ensures
        !set_of_views(v).contains(x),
    decreases v.len(),
{
    if v.len() > 0 {
        assert(forall|i: int| 0 <= i < v.drop_last().len() ==> (#[trigger] v.drop_last()[i]).addr
            != x.addr);
        lemma_set_of_views_not_contains(v.drop_last(), x);
    }
}

proof fn lemma_set_of_views_remove(v: Seq<ClientInfoV>, l: int)
    requires
        forall|a: int, b: int| 0 <= a < b < v.len() ==> v[a].addr != v[b].addr,
        0 <= l < v.len(),
    ensures
        set_of_views(v.remove(l)) == set_of_views(v).remove(v[l]),
    decreases v.len(),
{
    if l == v.len() - 1 {
        assert(v.remove(l) =~= v.drop_last());
        assert(forall|i: int| 0 <= i < v.drop_last().len() ==> (#[trigger] v.drop_last()[i]).addr
            != v[l].addr);
        lemma_set_of_views_not_contains(v.drop_last(), v[l]);
        assert(set_of_views(v.remove(l)) =~= set_of_views(v).remove(v[l]));
    } else {
        assert(forall|a: int, b: int| 0 <= a < b < v.drop_last().len() ==>
            v.drop_last()[a].addr != v.drop_last()[b].addr);
        lemma_set_of_views_remove(v.drop_last(), l);
        assert(v.remove(l).drop_last() =~= v.drop_last().remove(l));
        assert(v.remove(l).last() == v.last());
        assert(v[l].addr != v.last().addr);
        assert(set_of_views(v.remove(l)) =~= set_of_views(v).remove(v[l]));
    }
}

#[verifier::rlimit(30)]
proof fn lemma_add_wf_existing(
    old_ba: Seq<AttachedIpcClient>,
    old_bp: Seq<(RelPath, Vec<AttachedIpcClient>)>,
    ba: Seq<AttachedIpcClient>,
    bp: Seq<(RelPath, Vec<AttachedIpcClient>)>,
    bi: int,
)
    requires
        wf_parts(old_ba, old_bp),
        ba.len() == old_ba.len() + 1,
        ba.drop_last() == old_ba,
        !addr_map_of(old_ba).contains_key(ba.last().info.addr),
        forall|i: int|
            0 <= i < old_ba.len() ==> (#[trigger] old_ba[i]).info.addr != ba.last().info.addr,
        is_rel_path(ba.last().info.path@),
        0 <= bi < old_bp.len(),
        old_bp[bi].0@ == ba.last().info.path@,
        bp.len() == old_bp.len(),
        forall|j: int| 0 <= j < old_bp.len() && j != bi ==> #[trigger] bp[j] == old_bp[j],
        bp[bi].0 == old_bp[bi].0,
        bp[bi].1@.len() == old_bp[bi].1@.len() + 1,
        bp[bi].1@.drop_last() == old_bp[bi].1@,
        bp[bi].1@.last()@ == ba.last()@,
    ensures
        wf_parts(ba, bp),
        addr_map_of(ba) == addr_map_of(old_ba).insert(ba.last().info.addr, ba.last()@),
        buckets_map_of(bp) == buckets_map_of(old_bp).insert(
            old_bp[bi].0@,
            client_views(old_bp[bi].1@).push(ba.last()@),
        ),
{
    let c = ba.last();
    let key = old_bp[bi].0@;
    assert(forall|i: int| 0 <= i < old_ba.len() ==> #[trigger] ba[i] == old_ba[i]);
    assert(addr_map_of(ba) == addr_map_of(old_ba).insert(c.info.addr, c@));
    assert(forall|x: int| 0 <= x < old_bp[bi].1@.len() ==> #[trigger] bp[bi].1@[x]
        == old_bp[bi].1@[x]);
    assert(client_views(bp[bi].1@) =~= client_views(old_bp[bi].1@).push(c@));
    lemma_buckets_map_update(old_bp, bi, bp[bi]);
    assert(bp =~= old_bp.update(bi, bp[bi]));
    assert(buckets_map_of(bp) == buckets_map_of(old_bp).insert(
        key,
        client_views(bp[bi].1@),
    ));
    // the extended bucket's views, as a set
    let ovs = client_views(old_bp[bi].1@);
    assert(ovs.push(c@).drop_last() =~= ovs);
    assert(set_of_views(ovs.push(c@)) == set_of_views(ovs).insert(c@));
    // no old bucket member shares the new client's address
    assert forall|j: int, l: int|
        0 <= j < bp.len() && 0 <= l < bp[j].1@.len() implies addr_map_of(ba).contains_key(
        (#[trigger] bp[j].1@[l]).info.addr,
    ) && addr_map_of(ba)[bp[j].1@[l].info.addr] == bp[j].1@[l]@ by {
        if j == bi && l == bp[bi].1@.len() - 1 {
            assert(bp[j].1@[l]@ == c@);
            assert(bp[j].1@[l].info.addr == c.info.addr);
        } else {
            assert(bp[j].1@[l] == old_bp[j].1@[l]);
            assert(addr_map_of(old_ba).contains_key(old_bp[j].1@[l].info.addr));
            assert(old_bp[j].1@[l].info.addr != c.info.addr);
        }
    }
    assert forall|i: int, a: int, b: int|
        0 <= i < bp.len() && 0 <= a < b < bp[i].1@.len() implies (#[trigger] bp[i].1@[a]).info.addr
        != (#[trigger] bp[i].1@[b]).info.addr by {
        if i == bi && b == bp[bi].1@.len() - 1 {
            assert(bp[i].1@[a] == old_bp[i].1@[a]);
            assert(addr_map_of(old_ba).contains_key(old_bp[i].1@[a].info.addr));
        }
    }
    assert forall|i: int|
        0 <= i < ba.len() implies buckets_map_of(bp).contains_key(
        (#[trigger] ba[i]).info.path@,
    ) && set_of_views(buckets_map_of(bp)[ba[i].info.path@]).contains(ba[i]@) by {
        if i == ba.len() - 1 {
            assert(client_views(bp[bi].1@) == ovs.push(c@));
            assert(buckets_map_of(bp)[key] == ovs.push(c@));
        } else {
            assert(ba[i] == old_ba[i]);
            assert(buckets_map_of(old_bp).contains_key(old_ba[i].info.path@));
            if ba[i].info.path@ == key {
                lemma_buckets_map_at(old_bp, bi);
                assert(buckets_map_of(old_bp)[key] == ovs);
                assert(set_of_views(ovs).contains(old_ba[i]@));
                assert(set_of_views(ovs.push(c@)).contains(ba[i]@));
            } else {
                assert(buckets_map_of(bp)[ba[i].info.path@]
                    == buckets_map_of(old_bp)[ba[i].info.path@]);
            }
        }
    }
}

#[verifier::rlimit(30)]
proof fn lemma_add_wf_fresh(
    old_ba: Seq<AttachedIpcClient>,
    old_bp: Seq<(RelPath, Vec<AttachedIpcClient>)>,
    ba: Seq<AttachedIpcClient>,
    bp: Seq<(RelPath, Vec<AttachedIpcClient>)>,
)
    requires
        wf_parts(old_ba, old_bp),
        ba.len() == old_ba.len() + 1,
        ba.drop_last() == old_ba,
        !addr_map_of(old_ba).contains_key(ba.last().info.addr),
        forall|i: int|
            0 <= i < old_ba.len() ==> (#[trigger] old_ba[i]).info.addr != ba.last().info.addr,
        is_rel_path(ba.last().info.path@),
        !buckets_map_of(old_bp).contains_key(ba.last().info.path@),
        forall|j: int| 0 <= j < old_bp.len() ==> (#[trigger] old_bp[j]).0@ != ba.last().info.path@,
        bp.len() == old_bp.len() + 1,
        bp.drop_last() == old_bp,
        bp.last().0@ == ba.last().info.path@,
        bp.last().1@.len() == 1,
        bp.last().1@[0]@ == ba.last()@,
    ensures
        wf_parts(ba, bp),
        addr_map_of(ba) == addr_map_of(old_ba).insert(ba.last().info.addr, ba.last()@),
        buckets_map_of(bp) == buckets_map_of(old_bp).insert(
            ba.last().info.path@,
            Seq::<ClientInfoV>::empty().push(ba.last()@),
        ),
{
    let c = ba.last();
    let key = c.info.path@;
    assert(forall|i: int| 0 <= i < old_ba.len() ==> #[trigger] ba[i] == old_ba[i]);
    assert(forall|j: int| 0 <= j < old_bp.len() ==> #[trigger] bp[j] == old_bp[j]);
    assert(addr_map_of(ba) == addr_map_of(old_ba).insert(c.info.addr, c@));
    assert(client_views(bp.last().1@) =~= Seq::<ClientInfoV>::empty().push(c@));
    assert(buckets_map_of(bp) == buckets_map_of(old_bp).insert(
        key,
        Seq::<ClientInfoV>::empty().push(c@),
    ));
    let single = Seq::<ClientInfoV>::empty().push(c@);
    assert(single.drop_last() =~= Seq::<ClientInfoV>::empty());
    assert(set_of_views(single) =~= set_of_views(single.drop_last()).insert(c@));
    assert forall|j: int, l: int|
        0 <= j < bp.len() && 0 <= l < bp[j].1@.len() implies addr_map_of(ba).contains_key(
        (#[trigger] bp[j].1@[l]).info.addr,
    ) && addr_map_of(ba)[bp[j].1@[l].info.addr] == bp[j].1@[l]@ by {
        if j == bp.len() - 1 {
            assert(bp[j].1@[l]@ == c@);
            assert(bp[j].1@[l].info.addr == c.info.addr);
        } else {
            assert(bp[j].1@[l] == old_bp[j].1@[l]);
            assert(addr_map_of(old_ba).contains_key(old_bp[j].1@[l].info.addr));
            assert(old_bp[j].1@[l].info.addr != c.info.addr);
        }
    }
    assert forall|i: int|
        0 <= i < ba.len() implies buckets_map_of(bp).contains_key(
        (#[trigger] ba[i]).info.path@,
    ) && set_of_views(buckets_map_of(bp)[ba[i].info.path@]).contains(ba[i]@) by {
        if i == ba.len() - 1 {
            assert(buckets_map_of(bp)[key] == single);
        } else {
            assert(ba[i] == old_ba[i]);
            assert(buckets_map_of(old_bp).contains_key(old_ba[i].info.path@));
            assert(ba[i].info.path@ != key);
            assert(buckets_map_of(bp)[ba[i].info.path@]
                == buckets_map_of(old_bp)[ba[i].info.path@]);
        }
    }
}

impl AttachedClients {
    /// The by-address view: one record per attached address.
    pub closed spec fn addr_map(&self) -> Map<Addr, ClientInfoV> {
        addr_map_of(self.by_addr@)
    }

    /// The by-address records in table order, as sent in an info reply.
    pub closed spec fn all_seq(&self) -> Seq<ClientInfoV> {
        client_views(self.by_addr@)
    }

    /// The clients attached to one path, in fan-out order.  Empty when no
    /// client is attached to it.
    pub closed spec fn bucket_seq(&self, path: Seq<char>) -> Seq<ClientInfoV> {
        if buckets_map_of(self.by_path@).contains_key(path) {
            buckets_map_of(self.by_path@)[path]
        } else {
            Seq::empty()
        }
    }

    /// The table's internal invariant: indices well-keyed and consistent.
    pub closed spec fn wf(&self) -> bool {
        wf_parts(self.by_addr@, self.by_path@)
    }

    /// An empty table.
    pub fn new() -> (r: AttachedClients)
        ensures
            r.wf(),
            r.addr_map() == Map::<Addr, ClientInfoV>::empty(),
            r.all_seq() == Seq::<ClientInfoV>::empty(),
            forall|k: Seq<char>| r.bucket_seq(k) == Seq::<ClientInfoV>::empty(),
    {
        let r = AttachedClients { by_path: Vec::new(), by_addr: Vec::new() };
        proof {
            assert(client_views(r.by_addr@) =~= Seq::<ClientInfoV>::empty());
        }
        r
    }

    /// Index of the by-address entry for `addr`, if attached.
    fn find_addr(&self, addr: Addr) -> (r: Option<usize>)
        ensures
            match r {
                Some(i) => i < self.by_addr@.len() && self.by_addr@[i as int].info.addr == addr,
                None => forall|i: int|
                    0 <= i < self.by_addr@.len() ==> (#[trigger] self.by_addr@[i]).info.addr
                        != addr,
            },
    {
        let mut i: usize = 0;
        while i < self.by_addr.len()
            invariant
                i <= self.by_addr@.len(),
                forall|j: int| 0 <= j < i ==> (#[trigger] self.by_addr@[j]).info.addr != addr,
            decreases self.by_addr@.len() - i,
        {
            let c = &self.by_addr[i];
            if c.info.addr.ip0 == addr.ip0 && c.info.addr.ip1 == addr.ip1 && c.info.addr.ip2
                == addr.ip2 && c.info.addr.ip3 == addr.ip3 && c.info.addr.port == addr.port {
                return Some(i);
            }
            i = i + 1;
        }
        None
    }

    /// Index of the bucket for `path`, if present.
    fn find_bucket(&self, path: &RelPath) -> (r: Option<usize>)
        ensures
            match r {
                Some(i) => i < self.by_path@.len() && self.by_path@[i as int].0@ == path@,
                None => forall|i: int|
                    0 <= i < self.by_path@.len() ==> (#[trigger] self.by_path@[i]).0@ != path@,
            },
    {
        let mut i: usize = 0;
        while i < self.by_path.len()
            invariant
                i <= self.by_path@.len(),
                forall|j: int| 0 <= j < i ==> (#[trigger] self.by_path@[j]).0@ != path@,
            decreases self.by_path@.len() - i,
        {
            if self.by_path[i].0.same(path) {
                return Some(i);
            }
            i = i + 1;
        }
        None
    }

    /// Look up the attached client for an address.
    pub fn get_addr(&self, addr: Addr) -> (r: Option<AttachedIpcClient>)
        requires
            self.wf(),
        ensures
            match r {
                Some(c) => self.addr_map().contains_key(addr) && c@ == self.addr_map()[addr]
                    && c@.addr == addr,
                None => !self.addr_map().contains_key(addr),
            },
    {
        match self.find_addr(addr) {
            Some(i) => {
                proof {
                    lemma_addr_map_at(self.by_addr@, i as int);
                }
                Some(self.by_addr[i].clone())
            },
            None => {
                proof {
                    lemma_addr_map_domain(self.by_addr@, addr);
                }
                None
            },
        }
    }

    /// All clients attached to a path, in fan-out order.
    pub fn get_path(&self, path: &RelPath) -> (r: Vec<AttachedIpcClient>)
        requires
            self.wf(),
        ensures
            client_views(r@) == self.bucket_seq(path@),
    {
        match self.find_bucket(path) {
            Some(i) => {
                proof {
                    lemma_buckets_map_at(self.by_path@, i as int);
                }
                clone_clients(&self.by_path[i].1)
            },
            None => {
                proof {
                    lemma_buckets_map_domain(self.by_path@, path@);
                    assert(client_views(Seq::<AttachedIpcClient>::empty())
                        =~= Seq::<ClientInfoV>::empty());
                }
                Vec::new()
            },
        }
    }

    /// Attach a client.  The address must not already be attached; the
    /// router detaches any previous client on the same address first.
    pub fn add(&mut self, client: AttachedIpcClient)
        requires
            old(self).wf(),
            !old(self).addr_map().contains_key(client@.addr),
            is_rel_path(client@.path),
        ensures
            final(self).wf(),
            final(self).addr_map() == old(self).addr_map().insert(client@.addr, client@),
            final(self).all_seq() == old(self).all_seq().push(client@),
            final(self).bucket_seq(client@.path) == old(self).bucket_seq(client@.path).push(
                client@,
            ),
            forall|k: Seq<char>|
                k != client@.path ==> final(self).bucket_seq(k) == old(self).bucket_seq(k),
    {
        proof {
            lemma_addr_map_domain(self.by_addr@, client@.addr);
        }
        let ghost old_bp = self.by_path@;
        let ghost old_ba = self.by_addr@;
        let bucket_client = client.clone();
        match self.find_bucket(&client.info.path) {
            Some(bi) => {
                proof {
                    lemma_buckets_map_at(old_bp, bi as int);
                }
                self.by_path[bi].1.push(bucket_client);
                self.by_addr.push(client);
                proof {
                    assert(self.by_addr@.drop_last() =~= old_ba);
                    assert(self.by_path@[bi as int].1@.drop_last() =~= old_bp[bi as int].1@);
                    lemma_add_wf_existing(old_ba, old_bp, self.by_addr@, self.by_path@, bi as int);
                    assert(self.all_seq() =~= client_views(old_ba).push(self.by_addr@.last()@));
                    let key = old_bp[bi as int].0@;
                    assert(old(self).bucket_seq(key) == client_views(old_bp[bi as int].1@));
                    assert(self.bucket_seq(key) == old(self).bucket_seq(key).push(client@));
                    assert forall|k: Seq<char>| k != client@.path implies self.bucket_seq(k)
                        == old(self).bucket_seq(k) by {
                        assert(buckets_map_of(self.by_path@) == buckets_map_of(old_bp).insert(
                            key,
                            client_views(old_bp[bi as int].1@).push(client@),
                        ));
                    }
                }
            },
            None => {
                proof {
                    lemma_buckets_map_domain(old_bp, client@.path);
                }
                let mut bucket: Vec<AttachedIpcClient> = Vec::new();
                bucket.push(bucket_client);
                let key = client.info.path.clone();
                self.by_path.push((key, bucket));
                self.by_addr.push(client);
                proof {
                    assert(self.by_path@.drop_last() =~= old_bp);
                    assert(self.by_addr@.drop_last() =~= old_ba);
                    lemma_add_wf_fresh(old_ba, old_bp, self.by_addr@, self.by_path@);
                    assert(self.all_seq() =~= client_views(old_ba).push(self.by_addr@.last()@));
                    assert(old(self).bucket_seq(client@.path) =~= Seq::<ClientInfoV>::empty());
                    assert(self.bucket_seq(client@.path) =~= old(self).bucket_seq(
                        client@.path,
                    ).push(client@));
                    assert forall|k: Seq<char>| k != client@.path implies self.bucket_seq(k)
                        == old(self).bucket_seq(k) by {
                        assert(buckets_map_of(self.by_path@) == buckets_map_of(old_bp).insert(
                            client@.path,
                            Seq::<ClientInfoV>::empty().push(client@),
                        ));
                    }
                }
            },
        }
    }

    /// Index of a bucket member with the given address.
    fn find_in_bucket(bucket: &Vec<AttachedIpcClient>, addr: Addr) -> (r: Option<usize>)
        ensures
            match r {
                Some(l) => l < bucket@.len() && bucket@[l as int].info.addr == addr,
                None => forall|l: int|
                    0 <= l < bucket@.len() ==> (#[trigger] bucket@[l]).info.addr != addr,
            },
    {
        let mut l: usize = 0;
        while l < bucket.len()
            invariant
                l <= bucket@.len(),
                forall|j: int| 0 <= j < l ==> (#[trigger] bucket@[j]).info.addr != addr,
            decreases bucket@.len() - l,
        {
            let c = &bucket[l];
            if c.info.addr.ip0 == addr.ip0 && c.info.addr.ip1 == addr.ip1 && c.info.addr.ip2
                == addr.ip2 && c.info.addr.ip3 == addr.ip3 && c.info.addr.port == addr.port {
                return Some(l);
            }
            l = l + 1;
        }
        None
    }

    /// Detaching left other clients in the bucket: the invariant and the
    /// view equations after dropping one member from one bucket.
    #[verifier::rlimit(30)]
    proof fn lemma_remove_shrink(
        &self,
        old_ba: Seq<AttachedIpcClient>,
        old_bp: Seq<(RelPath, Vec<AttachedIpcClient>)>,
        ai: int,
        bi: int,
        l: int,
        cv: ClientInfoV,
    )
        requires
            wf_parts(old_ba, old_bp),
            0 <= ai < old_ba.len(),
            old_ba[ai]@ == cv,
            0 <= bi < old_bp.len(),
            old_bp[bi].0@ == cv.path,
            0 <= l < old_bp[bi].1@.len(),
            old_bp[bi].1@[l].info.addr == cv.addr,
            old_bp[bi].1@.len() > 1,
            self.by_addr@ == old_ba.remove(ai),
            self.by_path@.len() == old_bp.len(),
            forall|j: int|
                0 <= j < old_bp.len() && j != bi ==> #[trigger] self.by_path@[j] == old_bp[j],
            self.by_path@[bi].0 == old_bp[bi].0,
            self.by_path@[bi].1@ == old_bp[bi].1@.remove(l),
        ensures
            self.wf(),
            client_views(self.by_addr@) == client_views(old_ba).remove(ai),
            buckets_map_of(self.by_path@) == buckets_map_of(old_bp).insert(
                cv.path,
                client_views(old_bp[bi].1@).remove(l),
            ),
            old_bp[bi].1@[l]@ == cv,
    {
        let ba = self.by_addr@;
        let bp = self.by_path@;
        lemma_addr_map_at(old_ba, ai);
        lemma_buckets_map_at(old_bp, bi);
        // the dropped member carries the detached client's record
        assert(addr_map_of(old_ba)[cv.addr] == cv);
        assert(addr_map_of(old_ba)[old_bp[bi].1@[l].info.addr] == old_bp[bi].1@[l]@);
        assert(old_bp[bi].1@[l]@ == cv);
        assert(forall|x: int| 0 <= x < ba.len() ==> #[trigger] ba[x] == (if x < ai {
            old_ba[x]
        } else {
            old_ba[x + 1]
        }));
        assert(forall|x: int| 0 <= x < bp[bi].1@.len() ==> #[trigger] bp[bi].1@[x] == (if x < l {
            old_bp[bi].1@[x]
        } else {
            old_bp[bi].1@[x + 1]
        }));
        assert(client_views(ba) =~= client_views(old_ba).remove(ai));
        assert(client_views(bp[bi].1@) =~= client_views(old_bp[bi].1@).remove(l));
        lemma_buckets_map_update(old_bp, bi, bp[bi]);
        assert(bp =~= old_bp.update(bi, bp[bi]));
        lemma_addr_map_remove(old_ba, ai);
        let ovs = client_views(old_bp[bi].1@);
        assert(forall|a: int, b: int| 0 <= a < b < ovs.len() ==> ovs[a].addr != ovs[b].addr);
        lemma_set_of_views_remove(ovs, l);
        assert(ovs[l] == cv);
        assert forall|i: int|
            0 <= i < ba.len() implies buckets_map_of(bp).contains_key(
            (#[trigger] ba[i]).info.path@,
        ) && set_of_views(buckets_map_of(bp)[ba[i].info.path@]).contains(ba[i]@) by {
            let io: int = if i < ai { i } else { i + 1 };
            assert(old_ba[io].info.addr != old_ba[ai].info.addr);
            assert(buckets_map_of(old_bp).contains_key(old_ba[io].info.path@));
            if old_ba[io].info.path@ == cv.path {
                assert(buckets_map_of(old_bp)[cv.path] == ovs);
                assert(set_of_views(ovs).contains(old_ba[io]@));
                assert(old_ba[io]@.addr != cv.addr);
                assert(buckets_map_of(bp)[cv.path] == ovs.remove(l));
                assert(set_of_views(ovs.remove(l)).contains(old_ba[io]@));
            }
        }
        assert forall|j: int, ll: int|
            0 <= j < bp.len() && 0 <= ll < bp[j].1@.len() implies addr_map_of(ba).contains_key(
            (#[trigger] bp[j].1@[ll]).info.addr,
        ) && addr_map_of(ba)[bp[j].1@[ll].info.addr] == bp[j].1@[ll]@ by {
            let lo: int = if j == bi && ll >= l { ll + 1 } else { ll };
            assert(bp[j].1@[ll] == old_bp[j].1@[lo]);
            let m = old_bp[j].1@[lo];
            assert(addr_map_of(old_ba).contains_key(m.info.addr));
            assert(addr_map_of(old_ba)[m.info.addr] == m@);
            if m.info.addr == cv.addr {
                assert(m@ == cv);
                assert(old_bp[j].0@ == cv.path);
                assert(j == bi);
                assert(old_bp[bi].1@[lo].info.addr == old_bp[bi].1@[l].info.addr);
                assert(lo == l);
                assert(false);
            }
            assert(addr_map_of(ba) == addr_map_of(old_ba).remove(old_ba[ai].info.addr));
        }
    }

    /// Detaching emptied its bucket: the invariant and the view equations
    /// after dropping the whole bucket.
    #[verifier::rlimit(30)]
    proof fn lemma_remove_drop(
        &self,
        old_ba: Seq<AttachedIpcClient>,
        old_bp: Seq<(RelPath, Vec<AttachedIpcClient>)>,
        ai: int,
        bi: int,
        cv: ClientInfoV,
    )
        requires
            wf_parts(old_ba, old_bp),
            0 <= ai < old_ba.len(),
            old_ba[ai]@ == cv,
            0 <= bi < old_bp.len(),
            old_bp[bi].0@ == cv.path,
            old_bp[bi].1@.len() == 1,
            old_bp[bi].1@[0].info.addr == cv.addr,
            self.by_addr@ == old_ba.remove(ai),
            self.by_path@ == old_bp.remove(bi),
        ensures
            self.wf(),
            client_views(self.by_addr@) == client_views(old_ba).remove(ai),
            buckets_map_of(self.by_path@) == buckets_map_of(old_bp).remove(cv.path),
            client_views(old_bp[bi].1@) == Seq::<ClientInfoV>::empty().push(cv),
    {
        let ba = self.by_addr@;
        let bp = self.by_path@;
        lemma_addr_map_at(old_ba, ai);
        lemma_buckets_map_at(old_bp, bi);
        assert(addr_map_of(old_ba)[cv.addr] == cv);
        assert(addr_map_of(old_ba)[old_bp[bi].1@[0].info.addr] == old_bp[bi].1@[0]@);
        assert(old_bp[bi].1@[0]@ == cv);
        assert(forall|x: int| 0 <= x < ba.len() ==> #[trigger] ba[x] == (if x < ai {
            old_ba[x]
        } else {
            old_ba[x + 1]
        }));
        assert(forall|x: int| 0 <= x < bp.len() ==> #[trigger] bp[x] == (if x < bi {
            old_bp[x]
        } else {
            old_bp[x + 1]
        }));
        assert(client_views(ba) =~= client_views(old_ba).remove(ai));
        assert(client_views(old_bp[bi].1@) =~= Seq::<ClientInfoV>::empty().push(cv));
        lemma_buckets_map_remove(old_bp, bi);
        lemma_addr_map_remove(old_ba, ai);
        let single = client_views(old_bp[bi].1@);
        assert(single.drop_last() =~= Seq::<ClientInfoV>::empty());
        assert(set_of_views(single) =~= set_of_views(single.drop_last()).insert(cv));
        assert forall|i: int|
            0 <= i < ba.len() implies buckets_map_of(bp).contains_key(
            (#[trigger] ba[i]).info.path@,
        ) && set_of_views(buckets_map_of(bp)[ba[i].info.path@]).contains(ba[i]@) by {
            let io: int = if i < ai { i } else { i + 1 };
            assert(old_ba[io].info.addr != old_ba[ai].info.addr);
            assert(buckets_map_of(old_bp).contains_key(old_ba[io].info.path@));
            if old_ba[io].info.path@ == cv.path {
                assert(buckets_map_of(old_bp)[cv.path] == single);
                assert(set_of_views(single).contains(old_ba[io]@));
                assert(old_ba[io]@ == cv);
                assert(old_ba[io]@.addr == cv.addr);
                assert(false);
            }
            assert(buckets_map_of(bp) == buckets_map_of(old_bp).remove(cv.path));
        }
        assert forall|j: int, ll: int|
            0 <= j < bp.len() && 0 <= ll < bp[j].1@.len() implies addr_map_of(ba).contains_key(
            (#[trigger] bp[j].1@[ll]).info.addr,
        ) && addr_map_of(ba)[bp[j].1@[ll].info.addr] == bp[j].1@[ll]@ by {
            let jo: int = if j < bi { j } else { j + 1 };
            assert(bp[j].1@[ll] == old_bp[jo].1@[ll]);
            let m = old_bp[jo].1@[ll];
            assert(addr_map_of(old_ba).contains_key(m.info.addr));
            assert(addr_map_of(old_ba)[m.info.addr] == m@);
            if m.info.addr == cv.addr {
                assert(m@ == cv);
                assert(old_bp[jo].0@ == cv.path);
                assert(jo == bi);
                assert(false);
            }
        }
    }

    /// Detach a client.  A table that does not hold the client's address is
    /// left unchanged; otherwise the record is dropped from both indices.
    pub fn remove(&mut self, client: &AttachedIpcClient)
        requires
            old(self).wf(),
            old(self).addr_map().contains_key(client@.addr) ==> old(self).addr_map()[client@.addr]
                == client@,
        ensures
            final(self).wf(),
            final(self).addr_map() == old(self).addr_map().remove(client@.addr),
            !old(self).addr_map().contains_key(client@.addr) ==> final(self).all_seq() == old(self).all_seq(),
            !old(self).addr_map().contains_key(client@.addr) ==> (forall|k: Seq<char>|
                final(self).bucket_seq(k) == old(self).bucket_seq(k)),
            old(self).addr_map().contains_key(client@.addr) ==> (exists|i: int|
                0 <= i < old(self).all_seq().len() && old(self).all_seq()[i] == client@ && final(self).all_seq() == old(self).all_seq().remove(i)),
            old(self).addr_map().contains_key(client@.addr) ==> (exists|l: int|
                0 <= l < old(self).bucket_seq(client@.path).len() && old(self).bucket_seq(
                    client@.path,
                )[l] == client@ && final(self).bucket_seq(client@.path) == old(self).bucket_seq(
                    client@.path,
                ).remove(l)),
            old(self).addr_map().contains_key(client@.addr) ==> (forall|k: Seq<char>|
                k != client@.path ==> final(self).bucket_seq(k) == old(self).bucket_seq(k)),
    {
        let addr = client.info.addr;
        match self.find_addr(addr) {
            None => {
                proof {
                    lemma_addr_map_domain(self.by_addr@, addr);
                    assert(self.addr_map().remove(addr) =~= self.addr_map());
                }
            },
            Some(ai) => {
                proof {
                    lemma_addr_map_at(self.by_addr@, ai as int);
                }
                let ghost old_ba = self.by_addr@;
                let ghost old_bp = self.by_path@;
                let removed = self.by_addr.remove(ai);
                proof {
                    lemma_addr_map_remove(old_ba, ai as int);
                    assert(removed@ == client@);
                }
                match self.find_bucket(&removed.info.path) {
                    None => {
                        proof {
                            // the old table indexed this client by path too
                            assert(buckets_map_of(old_bp).contains_key(removed.info.path@));
                            lemma_buckets_map_domain(old_bp, removed.info.path@);
                            let j = choose|j: int|
                                0 <= j < old_bp.len() && #[trigger] old_bp[j].0@
                                    == removed.info.path@;
                            assert(self.by_path@[j].0@ == removed.info.path@);
                            assert(false);
                        }
                    },
                    Some(bi) => {
                        proof {
                            lemma_buckets_map_at(old_bp, bi as int);
                        }
                        match Self::find_in_bucket(&self.by_path[bi].1, addr) {
                            None => {
                                proof {
                                    let ovs = client_views(old_bp[bi as int].1@);
                                    assert(set_of_views(ovs).contains(removed@));
                                    lemma_set_of_views_membership(ovs, removed@);
                                    let x = choose|x: int| 0 <= x < ovs.len() && ovs[x] == removed@;
                                    assert(old_bp[bi as int].1@[x].info.addr == addr);
                                    assert(false);
                                }
                            },
                            Some(l) => {
                                if self.by_path[bi].1.len() == 1 {
                                    let _ = self.by_path.remove(bi);
                                    proof {
                                        self.lemma_remove_drop(
                                            old_ba,
                                            old_bp,
                                            ai as int,
                                            bi as int,
                                            client@,
                                        );
                                        let cv = client@;
                                        assert(old(self).all_seq()[ai as int] == cv);
                                        assert(exists|i: int|
                                            0 <= i < old(self).all_seq().len() && old(self).all_seq()[i]
                                                == cv && self.all_seq() == old(self).all_seq().remove(
                                                i,
                                            ));
                                        assert(old(self).bucket_seq(cv.path) == client_views(
                                            old_bp[bi as int].1@,
                                        ));
                                        assert(old(self).bucket_seq(cv.path)[0] == cv);
                                        assert(self.bucket_seq(cv.path) =~= old(self).bucket_seq(
                                            cv.path,
                                        ).remove(0));
                                        assert(exists|ll: int|
                                            0 <= ll < old(self).bucket_seq(cv.path).len() && old(self).bucket_seq(cv.path)[ll] == cv && self.bucket_seq(
                                                cv.path,
                                            ) == old(self).bucket_seq(cv.path).remove(ll));
                                    }
                                } else {
                                    let _ = self.by_path[bi].1.remove(l);
                                    proof {
                                        self.lemma_remove_shrink(
                                            old_ba,
                                            old_bp,
                                            ai as int,
                                            bi as int,
                                            l as int,
                                            client@,
                                        );
                                        let cv = client@;
                                        assert(old(self).all_seq()[ai as int] == cv);
                                        assert(exists|i: int|
                                            0 <= i < old(self).all_seq().len() && old(self).all_seq()[i]
                                                == cv && self.all_seq() == old(self).all_seq().remove(
                                                i,
                                            ));
                                        assert(old(self).bucket_seq(cv.path) == client_views(
                                            old_bp[bi as int].1@,
                                        ));
                                        assert(old(self).bucket_seq(cv.path)[l as int] == cv);
                                        assert(exists|ll: int|
                                            0 <= ll < old(self).bucket_seq(cv.path).len() && old(self).bucket_seq(cv.path)[ll] == cv && self.bucket_seq(
                                                cv.path,
                                            ) == old(self).bucket_seq(cv.path).remove(ll));
                                    }
                                }
                            },
                        }
                    },
                }
            },
        }
    }

    /// All attached clients, in table order.
    pub fn all(&self) -> (r: Vec<AttachedIpcClient>)
        requires
            self.wf(),
        ensures
            client_views(r@) == self.all_seq(),
    {
        clone_clients(&self.by_addr)
    }
}

/// The dual-index law: in a well-formed table, every client indexed by
/// address is a member of the bucket for its path, and every bucket member
/// is indexed by its address, with the same record on both sides.
pub proof fn lemma_dual_index(t: &AttachedClients)
    requires
        t.wf(),
    ensures
        forall|a: Addr|
            t.addr_map().contains_key(a) ==> (#[trigger] t.addr_map()[a]).addr == a
                && t.bucket_seq(t.addr_map()[a].path).contains(t.addr_map()[a]),
        forall|k: Seq<char>, l: int|
            0 <= l < t.bucket_seq(k).len() ==> (#[trigger] t.bucket_seq(k)[l]).path == k
                && t.addr_map().contains_key(t.bucket_seq(k)[l].addr) && t.addr_map()[t.bucket_seq(
                k,
            )[l].addr] == t.bucket_seq(k)[l],
{
    let ba = t.by_addr@;
    let bp = t.by_path@;
    assert forall|a: Addr| t.addr_map().contains_key(a) implies (#[trigger] t.addr_map()[a]).addr
        == a && t.bucket_seq(t.addr_map()[a].path).contains(t.addr_map()[a]) by {
        lemma_addr_map_domain(ba, a);
        let i = choose|i: int| 0 <= i < ba.len() && #[trigger] ba[i].info.addr == a;
        lemma_addr_map_at(ba, i);
        assert(set_of_views(buckets_map_of(bp)[ba[i].info.path@]).contains(ba[i]@));
        lemma_set_of_views_membership(buckets_map_of(bp)[ba[i].info.path@], ba[i]@);
        let x = choose|x: int|
            0 <= x < buckets_map_of(bp)[ba[i].info.path@].len() && buckets_map_of(
                bp,
            )[ba[i].info.path@][x] == ba[i]@;
        assert(t.bucket_seq(ba[i].info.path@)[x] == ba[i]@);
    }
    assert forall|k: Seq<char>, l: int|
        0 <= l < t.bucket_seq(k).len() implies (#[trigger] t.bucket_seq(k)[l]).path == k
        && t.addr_map().contains_key(t.bucket_seq(k)[l].addr) && t.addr_map()[t.bucket_seq(
        k,
    )[l].addr] == t.bucket_seq(k)[l] by {
        assert(buckets_map_of(bp).contains_key(k));
        lemma_buckets_map_domain(bp, k);
        let j = choose|j: int| 0 <= j < bp.len() && #[trigger] bp[j].0@ == k;
        lemma_buckets_map_at(bp, j);
        assert(t.bucket_seq(k) == client_views(bp[j].1@));
        assert(t.bucket_seq(k)[l] == bp[j].1@[l]@);
    }
}

/// Clone a list of clients, keeping every record.
fn clone_clients(v: &Vec<AttachedIpcClient>) -> (r: Vec<AttachedIpcClient>)
    ensures
        client_views(r@) == client_views(v@),
        r@.len() == v@.len(),
{
    let mut out: Vec<AttachedIpcClient> = Vec::new();
    let mut i: usize = 0;
    while i < v.len()
        invariant
            i <= v@.len(),
            out@.len() == i,
            forall|j: int| 0 <= j < i ==> (#[trigger] out@[j])@ == v@[j]@,
        decreases v@.len() - i,
    {
        out.push(v[i].clone());
        i = i + 1;
    }
    proof {
        assert(client_views(out@) =~= client_views(v@));
    }
    out
}

} // verus!
