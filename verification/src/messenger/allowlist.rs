//! Updates of the chains that may open a channel.
use vstd::prelude::*;
use vstd::slice::slice_subrange;

use crate::messenger::chain;
use crate::messenger::chain::ChainId;
use crate::bytes::append_bytes;
use crate::scale;
use crate::scale::{decode_length, encode_length, length_size};

verus! {

/// The place of a chain in the order of chains: the consensus chain first, then the domains by
/// number.
pub open spec fn chain_rank(chain: ChainId) -> int {
    match chain {
        ChainId::Consensus => -1,
        ChainId::Domain(domain) => domain.0 as int,
    }
}

fn chain_before(a: &ChainId, b: &ChainId) -> (r: bool)
    ensures
        r == (chain_rank(*a) < chain_rank(*b)),
{
    match (a, b) {
        (ChainId::Consensus, ChainId::Consensus) => false,
        (ChainId::Consensus, ChainId::Domain(_)) => true,
        (ChainId::Domain(_), ChainId::Consensus) => false,
        (ChainId::Domain(x), ChainId::Domain(y)) => x.0 < y.0,
    }
}

/// A set of chains, kept in order.
#[derive(Debug, PartialEq, Eq)]
pub struct ChainSet {
    chains: Vec<ChainId>,
}

/// The chains come in their order, and none twice.
pub open spec fn in_order(chains: Seq<ChainId>) -> bool {
    forall|i: int, j: int|
        0 <= i < j < chains.len() ==> chain_rank(#[trigger] chains[i]) < chain_rank(
            #[trigger] chains[j],
        )
}

impl View for ChainSet {
    type V = Set<ChainId>;

    open spec fn view(&self) -> Set<ChainId> {
        self.elements().to_set()
    }
}

impl ChainSet {
    /// The chains in order.
    pub closed spec fn elements(self) -> Seq<ChainId> {
        self.chains@
    }

    #[verifier::type_invariant]
    spec fn ordered(self) -> bool {
        in_order(self.chains@)
    }

    /// The empty set.
    pub fn new() -> (r: ChainSet)
        ensures
            r.elements() == Seq::<ChainId>::empty(),
            r@ == Set::<ChainId>::empty(),
    {
        let r = ChainSet { chains: Vec::new() };
        proof {
            assert(r@ =~= Set::<ChainId>::empty());
        }
        r
    }

    /// The chains in order.
    pub fn chains(&self) -> (r: &Vec<ChainId>)
        ensures
            r@ == self.elements(),
            in_order(r@),
    {
        proof {
            use_type_invariant(self);
        }
        &self.chains
    }

    /// Whether the chain is in the set.
    pub fn contains(&self, chain: &ChainId) -> (r: bool)
        ensures
            r == self@.contains(*chain),
    {
        let mut i: usize = 0;
        while i < self.chains.len()
            invariant
                0 <= i <= self.chains.len(),
                forall|k: int| 0 <= k < i ==> #[trigger] self.chains@[k] != *chain,
            decreases self.chains.len() - i,
        {
            if same_chain(&self.chains[i], chain) {
                proof {
                    assert(self.chains@[i as int] == *chain);
                    assert(self.chains@.contains(*chain));
                }
                return true;
            }
            i += 1;
        }
        false
    }

    /// Puts a chain in the set.
    pub fn insert(&mut self, chain: ChainId)
        ensures
            final(self)@ == old(self)@.insert(chain),
    {
        proof {
            use_type_invariant(&*self);
        }
        let ghost before = self.chains@;
        let mut chains: Vec<ChainId> = Vec::new();
        let mut i: usize = 0;
        while i < self.chains.len() && chain_before(&self.chains[i], &chain)
            invariant
                self.chains@ == before,
                before == old(self).elements(),
                0 <= i <= self.chains.len(),
                chains@ == before.take(i as int),
                forall|k: int| 0 <= k < i ==> chain_rank(#[trigger] before[k]) < chain_rank(chain),
            decreases self.chains.len() - i,
        {
            chains.push(self.chains[i]);
            i += 1;
            proof {
                assert(chains@ =~= before.take(i as int));
            }
        }
        if i < self.chains.len() && same_chain(&self.chains[i], &chain) {
            proof {
                assert(before[i as int] == chain);
                assert(before.contains(chain));
                assert(self@ =~= old(self)@.insert(chain));
            }
            return;
        }
        let ghost at = i as int;
        chains.push(chain);
        while i < self.chains.len()
            invariant
                self.chains@ == before,
                before == old(self).elements(),
                0 <= at <= i <= self.chains.len(),
                chains@ == before.take(at).push(chain) + before.subrange(at, i as int),
            decreases self.chains.len() - i,
        {
            chains.push(self.chains[i]);
            i += 1;
            proof {
                assert(chains@ =~= before.take(at).push(chain) + before.subrange(at, i as int));
            }
        }
        proof {
            if at < before.len() {
                assert(chain_rank(chain) < chain_rank(before[at])) by {
                    lemma_rank_injective(chain, before[at]);
                }
            }
            assert(in_order(chains@)) by {
                assert forall|a: int, b: int| 0 <= a < b < chains@.len() implies chain_rank(
                    #[trigger] chains@[a],
                ) < chain_rank(#[trigger] chains@[b]) by {
                    if a > at {
                        assert(chains@[a] == before[a - 1] && chains@[b] == before[b - 1]);
                    } else if a == at {
                        assert(chains@[b] == before[b - 1]);
                        if b - 1 > at {
                            assert(chain_rank(before[at]) < chain_rank(before[b - 1]));
                        }
                    } else {
                        assert(chains@[a] == before[a]);
                        if b < at {
                            assert(chains@[b] == before[b]);
                        } else if b > at {
                            assert(chains@[b] == before[b - 1]);
                        }
                    }
                }
            }
            assert(chains@.to_set() =~= before.to_set().insert(chain)) by {
                assert forall|c: ChainId| chains@.contains(c) == before.to_set().insert(
                    chain,
                ).contains(c) by {
                    if chains@.contains(c) {
                        let k = choose|k: int| 0 <= k < chains@.len() && chains@[k] == c;
                        if k < at {
                            assert(before[k] == c);
                        } else if k > at {
                            assert(before[k - 1] == c);
                        }
                    }
                    if before.contains(c) {
                        let k = choose|k: int| 0 <= k < before.len() && before[k] == c;
                        if k < at {
                            assert(chains@[k] == c);
                        } else {
                            assert(chains@[k + 1] == c);
                        }
                    }
                    assert(chains@[at] == chain);
                }
            }
        }
        self.chains = chains;
    }
}

fn same_chain(a: &ChainId, b: &ChainId) -> (r: bool)
    ensures
        r == (*a == *b),
{
    match (a, b) {
        (ChainId::Consensus, ChainId::Consensus) => true,
        (ChainId::Domain(x), ChainId::Domain(y)) => x.0 == y.0,
        _ => false,
    }
}

proof fn lemma_rank_injective(a: ChainId, b: ChainId)
    ensures
        chain_rank(a) == chain_rank(b) ==> a == b,
{
}

/// Two sets with the same chains have them in the same order.
proof fn lemma_order_unique(a: Seq<ChainId>, b: Seq<ChainId>)
    requires
        in_order(a),
        in_order(b),
        a.to_set() == b.to_set(),
    ensures
        a == b,
    decreases a.len(),
{
    if a.len() == 0 {
        if b.len() > 0 {
            assert(b.contains(b[0]));
            assert(b.to_set().contains(b[0]));
            assert(a.contains(b[0]));
        }
    } else {
        assert(a.to_set().contains(a.last()));
        assert(b.contains(a.last()));
        let k = choose|k: int| 0 <= k < b.len() && b[k] == a.last();
        assert(b.to_set().contains(b.last()));
        assert(a.contains(b.last()));
        let m = choose|m: int| 0 <= m < a.len() && a[m] == b.last();
        if k < b.len() - 1 {
            assert(chain_rank(b[k]) < chain_rank(b[b.len() - 1]));
            if m < a.len() - 1 {
                assert(chain_rank(a[m]) < chain_rank(a[a.len() - 1]));
            }
        }
        assert(a.last() == b.last());
        let fa = a.drop_last();
        let fb = b.drop_last();
        assert(fa.to_set() =~= fb.to_set()) by {
            assert forall|c: ChainId| fa.contains(c) == fb.contains(c) by {
                if fa.contains(c) {
                    let i = choose|i: int| 0 <= i < fa.len() && fa[i] == c;
                    assert(a[i] == c);
                    assert(chain_rank(a[i]) < chain_rank(a[a.len() - 1]));
                    assert(a.to_set().contains(c));
                    assert(b.contains(c));
                    let j = choose|j: int| 0 <= j < b.len() && b[j] == c;
                    assert(fb[j] == c);
                }
                if fb.contains(c) {
                    let i = choose|i: int| 0 <= i < fb.len() && fb[i] == c;
                    assert(b[i] == c);
                    assert(chain_rank(b[i]) < chain_rank(b[b.len() - 1]));
                    assert(b.to_set().contains(c));
                    assert(a.contains(c));
                    let j = choose|j: int| 0 <= j < a.len() && a[j] == c;
                    assert(fa[j] == c);
                }
            }
        }
        assert(in_order(fa)) by {
            assert forall|i: int, j: int| 0 <= i < j < fa.len() implies chain_rank(
                #[trigger] fa[i],
            ) < chain_rank(#[trigger] fa[j]) by {
                assert(fa[i] == a[i] && fa[j] == a[j]);
            }
        }
        assert(in_order(fb)) by {
            assert forall|i: int, j: int| 0 <= i < j < fb.len() implies chain_rank(
                #[trigger] fb[i],
            ) < chain_rank(#[trigger] fb[j]) by {
                assert(fb[i] == b[i] && fb[j] == b[j]);
            }
        }
        lemma_order_unique(fa, fb);
        assert(a =~= fa.push(a.last()));
        assert(b =~= fb.push(b.last()));
    }
}

/// The encoded forms of chains, one behind the other.
pub open spec fn chains_code(chains: Seq<ChainId>) -> Seq<u8>
    decreases chains.len(),
{
    if chains.len() == 0 {
        Seq::empty()
    } else {
        chains[0].code() + chains_code(chains.drop_first())
    }
}

proof fn lemma_chains_code_push(chains: Seq<ChainId>, chain: ChainId)
    ensures
        chains_code(chains.push(chain)) == chains_code(chains) + chain.code(),
    decreases chains.len(),
{
    let longer = chains.push(chain);
    if chains.len() == 0 {
        assert(longer.drop_first() =~= Seq::<ChainId>::empty());
        assert(chains_code(longer.drop_first()) =~= Seq::<u8>::empty());
        assert(chains_code(longer) =~= chain.code());
        assert(chains_code(chains) + chain.code() =~= chain.code());
    } else {
        assert(longer.drop_first() =~= chains.drop_first().push(chain));
        lemma_chains_code_push(chains.drop_first(), chain);
        assert(chains_code(longer) =~= chains_code(chains) + chain.code());
    }
}

/// What follows the encoded forms of as many chains can be told from them.
proof fn lemma_chains_code(a: Seq<ChainId>, rest_a: Seq<u8>, b: Seq<ChainId>, rest_b: Seq<u8>)
    requires
        a.len() == b.len(),
        chains_code(a) + rest_a == chains_code(b) + rest_b,
    ensures
        a == b,
        rest_a == rest_b,
    decreases a.len(),
{
    if a.len() == 0 {
        assert(chains_code(a) + rest_a =~= rest_a);
        assert(chains_code(b) + rest_b =~= rest_b);
        assert(a =~= b);
    } else {
        let more_a = chains_code(a.drop_first()) + rest_a;
        let more_b = chains_code(b.drop_first()) + rest_b;
        assert(chains_code(a) + rest_a =~= a[0].code() + more_a);
        assert(chains_code(b) + rest_b =~= b[0].code() + more_b);
        chain::lemma_chain_code(a[0], more_a, b[0], more_b);
        lemma_chains_code(a.drop_first(), rest_a, b.drop_first(), rest_b);
        assert(a =~= seq![a[0]] + a.drop_first());
        assert(b =~= seq![b[0]] + b.drop_first());
    }
}

/// What follows an encoded set of chains can be told from it.
pub proof fn lemma_set_code(a: Seq<ChainId>, rest_a: Seq<u8>, b: Seq<ChainId>, rest_b: Seq<u8>)
    requires
        a.len() <= u32::MAX,
        b.len() <= u32::MAX,
        set_code(a) + rest_a == set_code(b) + rest_b,
    ensures
        a == b,
        rest_a == rest_b,
{
    let more_a = chains_code(a) + rest_a;
    let more_b = chains_code(b) + rest_b;
    assert(set_code(a) + rest_a =~= scale::length_code(a.len() as u32) + more_a);
    assert(set_code(b) + rest_b =~= scale::length_code(b.len() as u32) + more_b);
    scale::lemma_length_code(a.len() as u32, more_a, b.len() as u32, more_b);
    lemma_chains_code(a, rest_a, b, rest_b);
}

/// The encoded form of a set of chains: how many there are, and the chains in order.
pub open spec fn set_code(chains: Seq<ChainId>) -> Seq<u8> {
    scale::length_code(chains.len() as u32) + chains_code(chains)
}

impl ChainSet {
    /// Adds the encoded form at the end of `out`.
    pub fn encode_to(&self, out: &mut Vec<u8>)
        requires
            self.elements().len() <= u32::MAX,
        ensures
            final(out)@ == old(out)@ + set_code(self.elements()),
    {
        let ghost before = out@;
        let len: Vec<u8> = encode_length(self.chains.len() as u32);
        append_bytes(out, len.as_slice());
        let ghost head = out@;
        let mut i: usize = 0;
        proof {
            assert(self.chains@.take(0) =~= Seq::<ChainId>::empty());
            assert(out@ =~= head + chains_code(self.chains@.take(0)));
        }
        while i < self.chains.len()
            invariant
                0 <= i <= self.chains.len(),
                out@ == head + chains_code(self.chains@.take(i as int)),
            decreases self.chains.len() - i,
        {
            self.chains[i].encode_to(out);
            proof {
                assert(self.chains@.take(i + 1) =~= self.chains@.take(i as int).push(
                    self.chains@[i as int],
                ));
                lemma_chains_code_push(self.chains@.take(i as int), self.chains@[i as int]);
                assert(out@ =~= head + chains_code(self.chains@.take(i + 1)));
            }
            i += 1;
        }
        proof {
            assert(self.chains@.take(i as int) =~= self.chains@);
            assert(out@ =~= before + set_code(self.elements()));
        }
    }
}

impl Clone for ChainSet {
    fn clone(&self) -> (r: Self)
        ensures
            r.elements() == self.elements(),
    {
        proof {
            use_type_invariant(self);
        }
        let mut chains: Vec<ChainId> = Vec::new();
        let mut i: usize = 0;
        while i < self.chains.len()
            invariant
                0 <= i <= self.chains.len(),
                chains@ == self.chains@.take(i as int),
            decreases self.chains.len() - i,
        {
            chains.push(self.chains[i]);
            i += 1;
            proof {
                assert(chains@ =~= self.chains@.take(i as int));
            }
        }
        proof {
            assert(chains@ =~= self.chains@);
        }
        ChainSet { chains }
    }
}

/// `r` is what decoding the set of chains that `bytes` begin with comes to: the set, and how many
/// bytes it takes. The chains may stand in any order, and may stand there twice.
pub open spec fn set_decoded(bytes: Seq<u8>, r: Option<(ChainSet, usize)>) -> bool {
    match r {
        Some((set, len)) => exists|chains: Seq<ChainId>|
            chains.len() <= u32::MAX && scale::begins(bytes, #[trigger] set_code(chains)) && len
                == set_code(chains).len() && set@ == chains.to_set(),
        None => forall|chains: Seq<ChainId>|
            chains.len() <= u32::MAX ==> !scale::begins(bytes, #[trigger] set_code(chains)),
    }
}

proof fn lemma_chains_code_split(chains: Seq<ChainId>, i: int)
    requires
        0 <= i <= chains.len(),
    ensures
        chains_code(chains) == chains_code(chains.take(i)) + chains_code(chains.skip(i)),
    decreases i,
{
    if i == 0 {
        assert(chains.take(0) =~= Seq::<ChainId>::empty());
        assert(chains.skip(0) =~= chains);
        assert(chains_code(chains.take(0)) + chains_code(chains) =~= chains_code(chains));
    } else {
        lemma_chains_code_split(chains, i - 1);
        assert(chains.take(i) =~= chains.take(i - 1).push(chains[i - 1]));
        lemma_chains_code_push(chains.take(i - 1), chains[i - 1]);
        assert(chains.skip(i - 1).drop_first() =~= chains.skip(i));
        assert(chains_code(chains.skip(i - 1)) == chains[i - 1].code() + chains_code(
            chains.skip(i),
        ));
        assert(chains_code(chains) =~= chains_code(chains.take(i)) + chains_code(chains.skip(i)));
    }
}

/// Bytes that begin with a length, and with fewer chains than that before something that is no
/// chain, begin with no set of chains.
proof fn lemma_no_set(bytes: Seq<u8>, len: u32, read: Seq<ChainId>)
    requires
        read.len() < len,
        scale::begins(bytes, scale::length_code(len) + chains_code(read)),
        forall|chain: ChainId|
            !scale::begins(
                bytes.skip((scale::length_code(len) + chains_code(read)).len() as int),
                #[trigger] chain.code(),
            ),
    ensures
        forall|chains: Seq<ChainId>|
            chains.len() <= u32::MAX ==> !scale::begins(bytes, #[trigger] set_code(chains)),
{
    let head = scale::length_code(len) + chains_code(read);
    let rest = bytes.skip(head.len() as int);
    scale::lemma_begins(bytes, head);
    assert forall|chains: Seq<ChainId>| chains.len() <= u32::MAX implies !scale::begins(
        bytes,
        #[trigger] set_code(chains),
    ) by {
        if scale::begins(bytes, set_code(chains)) {
            let tail = bytes.skip(set_code(chains).len() as int);
            scale::lemma_begins(bytes, set_code(chains));
            assert(bytes =~= scale::length_code(chains.len() as u32) + (chains_code(chains)
                + tail));
            assert(bytes =~= scale::length_code(len) + (chains_code(read) + rest));
            scale::lemma_length_code(
                chains.len() as u32,
                chains_code(chains) + tail,
                len,
                chains_code(read) + rest,
            );
            let i = read.len() as int;
            lemma_chains_code_split(chains, i);
            let more = chains_code(chains.skip(i)) + tail;
            assert(chains_code(chains) + tail =~= chains_code(chains.take(i)) + more);
            lemma_chains_code(chains.take(i), more, read, rest);
            assert(chains.skip(i)[0] == chains[i]);
            assert(rest =~= chains[i].code() + (chains_code(chains.skip(i).drop_first()) + tail));
            scale::lemma_begins(rest, chains[i].code());
        }
    }
}

impl ChainSet {
    /// Decodes the set of chains that `bytes` begin with, and tells how many bytes it takes.
    pub fn decode(bytes: &[u8]) -> (r: Option<(ChainSet, usize)>)
        ensures
            set_decoded(bytes@, r),
    {
        let len: u32 = match decode_length(bytes) {
            Some(len) => len,
            None => {
                proof {
                    assert forall|chains: Seq<ChainId>|
                        chains.len() <= u32::MAX implies !scale::begins(
                        bytes@,
                        #[trigger] set_code(chains),
                    ) by {
                        let code = scale::length_code(chains.len() as u32);
                        if scale::begins(bytes@, set_code(chains)) {
                            assert(bytes@.take(code.len() as int) =~= set_code(chains).take(
                                code.len() as int,
                            ));
                            assert(set_code(chains).take(code.len() as int) =~= code);
                        }
                        assert(!scale::begins(bytes@, code));
                    }
                }
                return None;
            },
        };
        let mut at: usize = length_size(len);
        let mut set: ChainSet = ChainSet::new();
        let mut i: u32 = 0;
        let ghost mut read = Seq::<ChainId>::empty();
        proof {
            assert(scale::length_code(len) + chains_code(read) =~= scale::length_code(len));
            assert(read.to_set() =~= Set::<ChainId>::empty());
        }
        while i < len
            invariant
                0 <= i <= len,
                read.len() == i,
                at <= bytes@.len(),
                at == (scale::length_code(len) + chains_code(read)).len(),
                scale::begins(bytes@, scale::length_code(len) + chains_code(read)),
                set@ == read.to_set(),
            decreases len - i,
        {
            let rest: &[u8] = slice_subrange(bytes, at, bytes.len());
            proof {
                assert(rest@ =~= bytes@.skip(at as int));
                assert(bytes@.len() == bytes.len());
            }
            match ChainId::decode(rest) {
                None => {
                    proof {
                        lemma_no_set(bytes@, len, read);
                    }
                    return None;
                },
                Some((chain, size)) => {
                    proof {
                        let before = scale::length_code(len) + chains_code(read);
                        lemma_chains_code_push(read, chain);
                        let now = scale::length_code(len) + chains_code(read.push(chain));
                        assert(now =~= before + chain.code());
                        assert(bytes@.take(now.len() as int) =~= bytes@.take(at as int)
                            + rest@.take(size as int));
                        assert(read.push(chain).to_set() =~= read.to_set().insert(chain)) by {
                            assert forall|c: ChainId| read.push(chain).contains(c)
                                == read.to_set().insert(chain).contains(c) by {
                                if read.contains(c) {
                                    let k = choose|k: int| 0 <= k < read.len() && read[k] == c;
                                    assert(read.push(chain)[k] == c);
                                }
                                assert(read.push(chain)[read.len() as int] == chain);
                                if read.push(chain).contains(c) {
                                    let k = choose|k: int|
                                        0 <= k < read.push(chain).len() && read.push(chain)[k]
                                            == c;
                                    if k < read.len() {
                                        assert(read[k] == c);
                                    }
                                }
                            }
                        }
                        read = read.push(chain);
                    }
                    set.insert(chain);
                    at += size;
                    i += 1;
                },
            }
        }
        proof {
            assert(set_code(read) == scale::length_code(len) + chains_code(read));
        }
        Some((set, at))
    }
}

/// Domain allowlist updates.
#[derive(Debug, PartialEq, Eq)]
pub struct DomainAllowlistUpdates {
    /// Chains that are allowed to open channel with this chain.
    pub allow_chains: ChainSet,
    /// Chains that are not allowed to open channel with this chain.
    pub remove_chains: ChainSet,
}

impl Default for DomainAllowlistUpdates {
    fn default() -> (r: Self)
        ensures
            r.allow_chains@ == Set::<ChainId>::empty(),
            r.remove_chains@ == Set::<ChainId>::empty(),
    {
        DomainAllowlistUpdates { allow_chains: ChainSet::new(), remove_chains: ChainSet::new() }
    }
}

impl DomainAllowlistUpdates {
    /// The encoded form: the chains to allow, then the chains to remove.
    pub open spec fn code(self) -> Seq<u8> {
        set_code(self.allow_chains.elements()) + set_code(self.remove_chains.elements())
    }

    /// The sets are small enough to be encoded.
    pub open spec fn encodable(self) -> bool {
        self.allow_chains.elements().len() <= u32::MAX && self.remove_chains.elements().len()
            <= u32::MAX
    }
}

impl Clone for DomainAllowlistUpdates {
    fn clone(&self) -> (r: Self)
        ensures
            r.allow_chains.elements() == self.allow_chains.elements(),
            r.remove_chains.elements() == self.remove_chains.elements(),
    {
        DomainAllowlistUpdates {
            allow_chains: self.allow_chains.clone(),
            remove_chains: self.remove_chains.clone(),
        }
    }
}

/// The encoded form of two lists of chains, the chains to allow and those to remove.
pub open spec fn lists_code(allow: Seq<ChainId>, remove: Seq<ChainId>) -> Seq<u8> {
    set_code(allow) + set_code(remove)
}

/// `r` is what decoding the updates that `bytes` begin with comes to: the updates, and how many
/// bytes they take.
pub open spec fn updates_decoded(
    bytes: Seq<u8>,
    r: Option<(DomainAllowlistUpdates, usize)>,
) -> bool {
    match r {
        Some((updates, len)) => exists|allow: Seq<ChainId>, remove: Seq<ChainId>|
            allow.len() <= u32::MAX && remove.len() <= u32::MAX && scale::begins(
                bytes,
                #[trigger] lists_code(allow, remove),
            ) && len == lists_code(allow, remove).len() && updates.allow_chains@ == allow.to_set()
                && updates.remove_chains@ == remove.to_set(),
        None => forall|allow: Seq<ChainId>, remove: Seq<ChainId>|
            allow.len() <= u32::MAX && remove.len() <= u32::MAX ==> !scale::begins(
                bytes,
                #[trigger] lists_code(allow, remove),
            ),
    }
}

/// Bytes that begin with two lists begin with the first, and go on with the second.
proof fn lemma_lists(bytes: Seq<u8>, allow: Seq<ChainId>, remove: Seq<ChainId>)
    requires
        scale::begins(bytes, lists_code(allow, remove)),
    ensures
        scale::begins(bytes, set_code(allow)),
        scale::begins(bytes.skip(set_code(allow).len() as int), set_code(remove)),
{
    let tail = bytes.skip(lists_code(allow, remove).len() as int);
    scale::lemma_begins(bytes, lists_code(allow, remove));
    assert(bytes =~= set_code(allow) + (set_code(remove) + tail));
    scale::lemma_begins(bytes, set_code(allow));
    let rest = bytes.skip(set_code(allow).len() as int);
    assert(rest =~= set_code(remove) + tail);
    scale::lemma_begins(rest, set_code(remove));
}

impl DomainAllowlistUpdates {
    /// Adds the encoded form at the end of `out`.
    pub fn encode_to(&self, out: &mut Vec<u8>)
        requires
            self.encodable(),
        ensures
            final(out)@ == old(out)@ + self.code(),
    {
        let ghost before = out@;
        self.allow_chains.encode_to(out);
        self.remove_chains.encode_to(out);
        proof {
            assert(out@ =~= before + self.code());
        }
    }

    /// Decodes the updates that `bytes` begin with, and tells how many bytes they take.
    pub fn decode(bytes: &[u8]) -> (r: Option<(DomainAllowlistUpdates, usize)>)
        ensures
            updates_decoded(bytes@, r),
    {
        match ChainSet::decode(bytes) {
            None => {
                proof {
                    assert forall|allow: Seq<ChainId>, remove: Seq<ChainId>|
                        allow.len() <= u32::MAX && remove.len() <= u32::MAX implies !scale::begins(
                        bytes@,
                        #[trigger] lists_code(allow, remove),
                    ) by {
                        if scale::begins(bytes@, lists_code(allow, remove)) {
                            lemma_lists(bytes@, allow, remove);
                        }
                    }
                }
                None
            },
            Some((allow_chains, first)) => {
                let ghost allow = choose|allow: Seq<ChainId>|
                    allow.len() <= u32::MAX && scale::begins(bytes@, #[trigger] set_code(allow))
                        && first == set_code(allow).len() && allow_chains@ == allow.to_set();
                let rest: &[u8] = slice_subrange(bytes, first, bytes.len());
                proof {
                    assert(rest@ =~= bytes@.skip(first as int));
                    assert(bytes@.len() == bytes.len());
                }
                match ChainSet::decode(rest) {
                    None => {
                        proof {
                            assert forall|other: Seq<ChainId>, remove: Seq<ChainId>|
                                other.len() <= u32::MAX && remove.len()
                                    <= u32::MAX implies !scale::begins(
                                bytes@,
                                #[trigger] lists_code(other, remove),
                            ) by {
                                if scale::begins(bytes@, lists_code(other, remove)) {
                                    lemma_lists(bytes@, other, remove);
                                    scale::lemma_begins(bytes@, set_code(other));
                                    scale::lemma_begins(bytes@, set_code(allow));
                                    lemma_set_code(
                                        other,
                                        bytes@.skip(set_code(other).len() as int),
                                        allow,
                                        rest@,
                                    );
                                }
                            }
                        }
                        None
                    },
                    Some((remove_chains, second)) => {
                        proof {
                            let remove = choose|remove: Seq<ChainId>|
                                remove.len() <= u32::MAX && scale::begins(
                                    rest@,
                                    #[trigger] set_code(remove),
                                ) && second == set_code(remove).len() && remove_chains@
                                    == remove.to_set();
                            let code = lists_code(allow, remove);
                            assert(bytes@.take(code.len() as int) =~= bytes@.take(first as int)
                                + rest@.take(second as int));
                            assert(scale::begins(bytes@, code));
                        }
                        Some((DomainAllowlistUpdates { allow_chains, remove_chains }, first + second))
                    },
                }
            },
        }
    }
}

/// Updates that were encoded are decoded again as they were, whatever follows them.
pub proof fn law_updates_decode_back(
    updates: DomainAllowlistUpdates,
    bytes: Seq<u8>,
    r: Option<(DomainAllowlistUpdates, usize)>,
)
    requires
        updates.encodable(),
        scale::begins(bytes, updates.code()),
        updates_decoded(bytes, r),
    ensures
        r is Some,
        (r->0).0.allow_chains@ == updates.allow_chains@,
        (r->0).0.remove_chains@ == updates.remove_chains@,
        (r->0).1 == updates.code().len(),
{
    let a = updates.allow_chains.elements();
    let b = updates.remove_chains.elements();
    assert(scale::begins(bytes, lists_code(a, b)));
    let (got, len) = r->0;
    let (allow, remove) = choose|allow: Seq<ChainId>, remove: Seq<ChainId>|
        allow.len() <= u32::MAX && remove.len() <= u32::MAX && scale::begins(
            bytes,
            #[trigger] lists_code(allow, remove),
        ) && len == lists_code(allow, remove).len() && got.allow_chains@ == allow.to_set()
            && got.remove_chains@ == remove.to_set();
    lemma_lists(bytes, a, b);
    lemma_lists(bytes, allow, remove);
    scale::lemma_begins(bytes, set_code(a));
    scale::lemma_begins(bytes, set_code(allow));
    let rest = bytes.skip(set_code(a).len() as int);
    lemma_set_code(a, rest, allow, bytes.skip(set_code(allow).len() as int));
    scale::lemma_begins(rest, set_code(b));
    scale::lemma_begins(rest, set_code(remove));
    lemma_set_code(
        b,
        rest.skip(set_code(b).len() as int),
        remove,
        rest.skip(set_code(remove).len() as int),
    );
}

/// Sets with the same chains have the same encoded form, in whatever order the chains came in.
pub proof fn law_same_set_same_code(a: Seq<ChainId>, b: Seq<ChainId>)
    requires
        in_order(a),
        in_order(b),
        a.to_set() == b.to_set(),
    ensures
        set_code(a) == set_code(b),
{
    lemma_order_unique(a, b);
}

/// The consensus chain comes before every domain, and a domain before those of higher numbers.
pub proof fn law_order_of_chains(chains: Seq<ChainId>, i: int, j: int)
    requires
        in_order(chains),
        0 <= i < j < chains.len(),
    ensures
        chains[j] is Domain,
        chains[i] matches ChainId::Domain(domain) ==> domain.0 < chains[j]->Domain_0.0,
{
    assert(chain_rank(chains[i]) < chain_rank(chains[j]));
}

/// Chains that come in the order of their numbers, with the consensus chain at most at the front,
/// are in order.
pub proof fn law_sorted_chains_are_in_order(chains: Seq<ChainId>)
    requires
        forall|i: int, j: int|
            0 <= i < j < chains.len() ==> (#[trigger] chains[j]) is Domain && ((
            #[trigger] chains[i]) is Domain ==> chains[i]->Domain_0.0 < chains[j]->Domain_0.0),
    ensures
        in_order(chains),
{
    assert forall|i: int, j: int| 0 <= i < j < chains.len() implies chain_rank(
        #[trigger] chains[i],
    ) < chain_rank(#[trigger] chains[j]) by {
        let a = chains[i];
        let b = chains[j];
        assert(b is Domain);
    }
}

/// The encoded forms of chains stand one behind the other, each as it is by itself.
pub proof fn law_chain_codes_join(a: Seq<ChainId>, b: Seq<ChainId>, chain: ChainId)
    ensures
        chains_code(seq![chain]) == chain.code(),
        chains_code(a + b) == chains_code(a) + chains_code(b),
    decreases b.len(),
{
    assert(seq![chain].drop_first() =~= Seq::<ChainId>::empty());
    assert(chains_code(seq![chain].drop_first()) =~= Seq::<u8>::empty());
    assert(chains_code(seq![chain]) =~= chain.code());
    if b.len() == 0 {
        assert(a + b =~= a);
        assert(chains_code(a + b) =~= chains_code(a) + chains_code(b));
    } else {
        let front = b.drop_last();
        law_chain_codes_join(a, front, chain);
        assert(a + b =~= (a + front).push(b.last()));
        assert(b =~= front.push(b.last()));
        lemma_chains_code_push(a + front, b.last());
        lemma_chains_code_push(front, b.last());
        assert(chains_code(a + b) =~= chains_code(a) + chains_code(b));
    }
}

/// The encoded form of updates is the number of the chains to allow and these chains, then the number
/// of the chains to remove and these.
pub proof fn law_updates_layout(updates: DomainAllowlistUpdates)
    ensures
        ({
            let allow = updates.allow_chains.elements();
            let remove = updates.remove_chains.elements();
            let code = updates.code();
            let a = scale::length_code(allow.len() as u32).len() as int;
            let b = a + chains_code(allow).len();
            let c = b + scale::length_code(remove.len() as u32).len();
            let d = c + chains_code(remove).len();
            &&& code.len() == d
            &&& code.subrange(0, a) == scale::length_code(allow.len() as u32)
            &&& code.subrange(a, b) == chains_code(allow)
            &&& code.subrange(b, c) == scale::length_code(remove.len() as u32)
            &&& code.subrange(c, d) == chains_code(remove)
        }),
{
    let allow = updates.allow_chains.elements();
    let remove = updates.remove_chains.elements();
    let code = updates.code();
    let a = scale::length_code(allow.len() as u32).len() as int;
    let b = a + chains_code(allow).len();
    let c = b + scale::length_code(remove.len() as u32).len();
    let d = c + chains_code(remove).len();
    assert(code.subrange(0, a) =~= scale::length_code(allow.len() as u32));
    assert(code.subrange(a, b) =~= chains_code(allow));
    assert(code.subrange(b, c) =~= scale::length_code(remove.len() as u32));
    assert(code.subrange(c, d) =~= chains_code(remove));
}

} // verus!
