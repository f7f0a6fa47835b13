//! The inherent of the messenger: what a block carries into the runtime about the allowlist.
use vstd::prelude::*;
use vstd::slice::slice_subrange;

use crate::bytes::clone_bytes;
use crate::messenger::allowlist;
use crate::messenger::allowlist::DomainAllowlistUpdates;
use crate::scale;
use crate::scale::decode_u8;

verus! {

/// Messenger inherent identifier: `messengr`.
pub const INHERENT_IDENTIFIER: [u8; 8] = [0x6d, 0x65, 0x73, 0x73, 0x65, 0x6e, 0x67, 0x72];

/// The type of the messenger inherent data.
#[derive(Debug)]
pub struct InherentType {
    pub maybe_updates: Option<DomainAllowlistUpdates>,
}

impl InherentType {
    /// The encoded form.
    pub open spec fn code(self) -> Seq<u8> {
        match self.maybe_updates {
            None => seq![0u8],
            Some(updates) => seq![1u8] + updates.code(),
        }
    }

    /// The sets of chains are small enough to be encoded.
    pub open spec fn encodable(self) -> bool {
        self.maybe_updates matches Some(updates) ==> updates.encodable()
    }

    /// The encoded form.
    pub fn encode(&self) -> (r: Vec<u8>)
        requires
            self.encodable(),
        ensures
            r@ == self.code(),
    {
        let mut r: Vec<u8> = Vec::new();
        match &self.maybe_updates {
            None => {
                r.push(0);
            },
            Some(updates) => {
                r.push(1);
                updates.encode_to(&mut r);
            },
        }
        proof {
            assert(r@ =~= self.code());
        }
        r
    }
}

/// `r` is what decoding the inherent data that `bytes` begin with comes to: the data, and how many
/// bytes they take.
pub open spec fn inherent_decoded(bytes: Seq<u8>, r: Option<(InherentType, usize)>) -> bool {
    if bytes.len() == 0 || bytes[0] > 1 {
        r is None
    } else if bytes[0] == 0 {
        r matches Some((data, len)) && data.maybe_updates is None && len == 1
    } else {
        match r {
            Some((data, len)) => {
                &&& data.maybe_updates is Some
                &&& len >= 1
                &&& allowlist::updates_decoded(
                    bytes.skip(1),
                    Some((data.maybe_updates->0, (len - 1) as usize)),
                )
            },
            None => allowlist::updates_decoded(bytes.skip(1), None),
        }
    }
}

impl InherentType {
    /// Decodes the inherent data that `bytes` begin with, and tells how many bytes they take.
    pub fn decode(bytes: &[u8]) -> (r: Option<(InherentType, usize)>)
        ensures
            inherent_decoded(bytes@, r),
    {
        match decode_u8(bytes) {
            Ok(0) => Some((InherentType { maybe_updates: None }, 1)),
            Ok(1) => {
                let rest: &[u8] = slice_subrange(bytes, 1, bytes.len());
                proof {
                    assert(rest@ =~= bytes@.skip(1));
                    assert(bytes@.len() == bytes.len());
                }
                match DomainAllowlistUpdates::decode(rest) {
                    Some((updates, len)) => {
                        proof {
                            assert(len <= rest@.len());
                        }
                        Some((InherentType { maybe_updates: Some(updates) }, len + 1))
                    },
                    None => None,
                }
            },
            _ => None,
        }
    }
}

/// Inherent data that were encoded are decoded again as they were, whatever follows them.
pub proof fn law_inherent_decodes_back(
    data: InherentType,
    bytes: Seq<u8>,
    r: Option<(InherentType, usize)>,
)
    requires
        data.encodable(),
        scale::begins(bytes, data.code()),
        inherent_decoded(bytes, r),
    ensures
        r is Some,
        (r->0).1 == data.code().len(),
        match (data.maybe_updates, (r->0).0.maybe_updates) {
            (None, None) => true,
            (Some(x), Some(y)) => x.allow_chains@ == y.allow_chains@ && x.remove_chains@
                == y.remove_chains@,
            _ => false,
        },
{
    scale::lemma_begins(bytes, data.code());
    assert(bytes[0] == data.code()[0]);
    match data.maybe_updates {
        None => {},
        Some(updates) => {
            let rest = bytes.skip(1);
            assert(rest =~= updates.code() + bytes.skip(data.code().len() as int));
            scale::lemma_begins(rest, updates.code());
            let inner = match r {
                Some((got, len)) => Some((got.maybe_updates->0, (len - 1) as usize)),
                None => None,
            };
            allowlist::law_updates_decode_back(updates, rest, inner);
        },
    }
}

/// Different updates have different encoded forms.
pub proof fn law_inherent_codes_distinct(a: InherentType, b: InherentType)
    requires
        a.encodable(),
        b.encodable(),
        a.code() == b.code(),
    ensures
        match (a.maybe_updates, b.maybe_updates) {
            (None, None) => true,
            (Some(x), Some(y)) => x.allow_chains@ == y.allow_chains@ && x.remove_chains@
                == y.remove_chains@,
            _ => false,
        },
{
    assert(a.code()[0] == (if a.maybe_updates is Some {
        1u8
    } else {
        0
    }));
    assert(b.code()[0] == (if b.maybe_updates is Some {
        1u8
    } else {
        0
    }));
    match (a.maybe_updates, b.maybe_updates) {
        (Some(x), Some(y)) => {
            assert(x.code() =~= a.code().subrange(1, a.code().len() as int));
            assert(y.code() =~= b.code().subrange(1, b.code().len() as int));
            let more_x = allowlist::set_code(x.remove_chains.elements());
            let more_y = allowlist::set_code(y.remove_chains.elements());
            allowlist::lemma_set_code(
                x.allow_chains.elements(),
                more_x,
                y.allow_chains.elements(),
                more_y,
            );
            assert(more_x + Seq::<u8>::empty() =~= more_x);
            assert(more_y + Seq::<u8>::empty() =~= more_y);
            allowlist::lemma_set_code(
                x.remove_chains.elements(),
                Seq::empty(),
                y.remove_chains.elements(),
                Seq::empty(),
            );
        },
        _ => {},
    }
}

/// Inherent specific errors.
#[derive(Debug, Clone, Copy, PartialEq, Eq)]
pub enum InherentError {
    MissingAllowlistUpdates,
    IncorrectAllowlistUpdates,
}

/// The error that `bytes` start with, in its encoded form.
pub open spec fn decoded_error(bytes: Seq<u8>) -> Option<InherentError> {
    if bytes.len() == 0 {
        None
    } else if bytes[0] == 0 {
        Some(InherentError::MissingAllowlistUpdates)
    } else if bytes[0] == 1 {
        Some(InherentError::IncorrectAllowlistUpdates)
    } else {
        None
    }
}

impl InherentError {
    /// Whether the error makes a block invalid: all of them do.
    pub fn is_fatal_error(&self) -> (r: bool)
        ensures
            r,
    {
        true
    }

    /// The name of the error.
    pub open spec fn name(self) -> Seq<char> {
        match self {
            InherentError::MissingAllowlistUpdates => "MissingAllowlistUpdates"@,
            InherentError::IncorrectAllowlistUpdates => "IncorrectAllowlistUpdates"@,
        }
    }

    /// The name of the error.
    pub fn to_name(&self) -> (r: String)
        ensures
            r@ == self.name(),
    {
        match self {
            InherentError::MissingAllowlistUpdates => String::from_str("MissingAllowlistUpdates"),
            InherentError::IncorrectAllowlistUpdates => String::from_str(
                "IncorrectAllowlistUpdates",
            ),
        }
    }

    /// The encoded form.
    pub open spec fn code(self) -> Seq<u8> {
        match self {
            InherentError::MissingAllowlistUpdates => seq![0u8],
            InherentError::IncorrectAllowlistUpdates => seq![1u8],
        }
    }

    /// The encoded form.
    pub fn encode(&self) -> (r: Vec<u8>)
        ensures
            r@ == self.code(),
    {
        let mut r: Vec<u8> = Vec::new();
        match self {
            InherentError::MissingAllowlistUpdates => {
                r.push(0);
            },
            InherentError::IncorrectAllowlistUpdates => {
                r.push(1);
            },
        }
        proof {
            assert(r@ =~= self.code());
        }
        r
    }

    /// Decodes the error that `bytes` start with.
    pub fn decode(bytes: &[u8]) -> (r: Option<InherentError>)
        ensures
            r == decoded_error(bytes@),
    {
        match decode_u8(bytes) {
            Ok(0) => Some(InherentError::MissingAllowlistUpdates),
            Ok(1) => Some(InherentError::IncorrectAllowlistUpdates),
            _ => None,
        }
    }
}

/// An error that was encoded is decoded again as it was.
pub proof fn law_error_decodes_back(error: InherentError)
    ensures
        decoded_error(error.code()) == Some(error),
{
}

/// What can go wrong with inherents.
#[derive(Debug, PartialEq, Eq)]
pub enum InherentsError {
    /// There are already data under the identifier.
    InherentDataExists([u8; 8]),
    /// The runtime refused the inherent.
    Application(String),
}

fn same_identifier(a: &[u8; 8], b: &[u8; 8]) -> (r: bool)
    ensures
        r == (a@ == b@),
{
    let mut i: usize = 0;
    while i < 8
        invariant
            0 <= i <= 8,
            forall|k: int| 0 <= k < i ==> #[trigger] a@[k] == b@[k],
        decreases 8 - i,
    {
        if a[i] != b[i] {
            return false;
        }
        i += 1;
    }
    proof {
        assert(a@ =~= b@);
    }
    true
}

/// The data that the inherents of a block carry, by identifier.
#[derive(Debug)]
pub struct InherentData {
    entries: Vec<([u8; 8], Vec<u8>)>,
}

/// The entries by identifier; of two with one identifier the first counts.
spec fn data_of(entries: Seq<([u8; 8], Vec<u8>)>) -> Map<Seq<u8>, Seq<u8>>
    decreases entries.len(),
{
    if entries.len() == 0 {
        Map::empty()
    } else {
        data_of(entries.drop_first()).insert(entries[0].0@, entries[0].1@)
    }
}

proof fn lemma_data_of(entries: Seq<([u8; 8], Vec<u8>)>, identifier: Seq<u8>)
    ensures
        forall|i: int|
            0 <= i < entries.len() && (#[trigger] entries[i]).0@ == identifier && (forall|k: int|
                0 <= k < i ==> (#[trigger] entries[k]).0@ != identifier) ==> data_of(
                entries,
            ).contains_key(identifier) && data_of(entries)[identifier] == entries[i].1@,
        (forall|i: int| 0 <= i < entries.len() ==> (#[trigger] entries[i]).0@ != identifier)
            ==> !data_of(entries).contains_key(identifier),
    decreases entries.len(),
{
    if entries.len() > 0 {
        let rest = entries.drop_first();
        lemma_data_of(rest, identifier);
        assert forall|i: int|
            0 <= i < entries.len() && (#[trigger] entries[i]).0@ == identifier && (forall|k: int|
                0 <= k < i ==> (#[trigger] entries[k]).0@ != identifier) implies data_of(
            entries,
        ).contains_key(identifier) && data_of(entries)[identifier] == entries[i].1@ by {
            if i > 0 {
                assert(entries[0].0@ != identifier);
                assert(rest[i - 1] == entries[i]);
                assert forall|k: int| 0 <= k < i - 1 implies (#[trigger] rest[k]).0@
                    != identifier by {
                    assert(rest[k] == entries[k + 1]);
                }
            }
        }
        if forall|i: int| 0 <= i < entries.len() ==> (#[trigger] entries[i]).0@ != identifier {
            assert(entries[0].0@ != identifier);
            assert forall|i: int| 0 <= i < rest.len() implies (#[trigger] rest[i]).0@
                != identifier by {
                assert(rest[i] == entries[i + 1]);
            }
        }
    }
}

proof fn lemma_data_of_push(entries: Seq<([u8; 8], Vec<u8>)>, entry: ([u8; 8], Vec<u8>))
    requires
        !data_of(entries).contains_key(entry.0@),
    ensures
        data_of(entries.push(entry)) == data_of(entries).insert(entry.0@, entry.1@),
    decreases entries.len(),
{
    let longer = entries.push(entry);
    if entries.len() == 0 {
        assert(longer.drop_first() =~= Seq::<([u8; 8], Vec<u8>)>::empty());
        assert(data_of(longer.drop_first()) =~= Map::<Seq<u8>, Seq<u8>>::empty());
        assert(data_of(longer) =~= data_of(entries).insert(entry.0@, entry.1@));
    } else {
        assert(longer.drop_first() =~= entries.drop_first().push(entry));
        lemma_data_of_push(entries.drop_first(), entry);
        assert(data_of(longer) =~= data_of(entries).insert(entry.0@, entry.1@));
    }
}

impl View for InherentData {
    type V = Map<Seq<u8>, Seq<u8>>;

    closed spec fn view(&self) -> Map<Seq<u8>, Seq<u8>> {
        data_of(self.entries@)
    }
}

impl InherentData {
    /// No data.
    pub fn new() -> (r: InherentData)
        ensures
            r@ == Map::<Seq<u8>, Seq<u8>>::empty(),
    {
        InherentData { entries: Vec::new() }
    }

    /// The data under an identifier.
    pub fn get(&self, identifier: &[u8; 8]) -> (r: Option<Vec<u8>>)
        ensures
            match r {
                Some(data) => self@.contains_key(identifier@) && self@[identifier@] == data@,
                None => !self@.contains_key(identifier@),
            },
    {
        let mut i: usize = 0;
        while i < self.entries.len()
            invariant
                0 <= i <= self.entries.len(),
                forall|k: int| 0 <= k < i ==> (#[trigger] self.entries@[k]).0@ != identifier@,
            decreases self.entries.len() - i,
        {
            if same_identifier(&self.entries[i].0, identifier) {
                proof {
                    lemma_data_of(self.entries@, identifier@);
                    assert(self.entries@[i as int].0@ == identifier@);
                }
                return Some(clone_bytes(&self.entries[i].1));
            }
            i += 1;
        }
        proof {
            lemma_data_of(self.entries@, identifier@);
        }
        None
    }

    /// Puts data under an identifier that has none yet.
    pub fn put_data(&mut self, identifier: [u8; 8], data: Vec<u8>) -> (res: Result<
        (),
        InherentsError,
    >)
        ensures
            if old(self)@.contains_key(identifier@) {
                res == Err::<(), InherentsError>(InherentsError::InherentDataExists(identifier))
                    && final(self)@ == old(self)@
            } else {
                res is Ok && final(self)@ == old(self)@.insert(identifier@, data@)
            },
    {
        match self.get(&identifier) {
            Some(_) => Err(InherentsError::InherentDataExists(identifier)),
            None => {
                proof {
                    lemma_data_of_push(self.entries@, (identifier, data));
                }
                self.entries.push((identifier, data));
                Ok(())
            },
        }
    }
}

/// Provides the set code inherent data.
#[derive(Debug)]
pub struct InherentDataProvider {
    data: InherentType,
}

impl View for InherentDataProvider {
    type V = InherentType;

    closed spec fn view(&self) -> InherentType {
        self.data
    }
}

impl InherentDataProvider {
    /// Create new inherent data provider from the given `data`.
    pub fn new(data: InherentType) -> (r: Self)
        ensures
            r@ == data,
    {
        Self { data }
    }

    /// Returns the `data` of this inherent data provider.
    pub fn data(&self) -> (r: &InherentType)
        ensures
            *r == self@,
    {
        &self.data
    }

    /// Puts the data among those of the block, under the identifier of the messenger.
    pub fn provide_inherent_data(&self, inherent_data: &mut InherentData) -> (res: Result<
        (),
        InherentsError,
    >)
        requires
            self@.encodable(),
        ensures
            if old(inherent_data)@.contains_key(INHERENT_IDENTIFIER@) {
                res == Err::<(), InherentsError>(
                    InherentsError::InherentDataExists(INHERENT_IDENTIFIER),
                ) && final(inherent_data)@ == old(inherent_data)@
            } else {
                res is Ok && final(inherent_data)@ == old(inherent_data)@.insert(
                    INHERENT_IDENTIFIER@,
                    self@.code(),
                )
            },
    {
        inherent_data.put_data(INHERENT_IDENTIFIER, self.data.encode())
    }

    /// Turns an error that the runtime reported into one of the messenger, if it is one.
    pub fn try_handle_error(&self, identifier: &[u8; 8], error: &[u8]) -> (r: Option<
        Result<(), InherentsError>,
    >)
        ensures
            if identifier@ != INHERENT_IDENTIFIER@ {
                r is None
            } else {
                match decoded_error(error@) {
                    None => r is None,
                    Some(reported) => r matches Some(Err(InherentsError::Application(text)))
                        && text@ == reported.name(),
                }
            },
    {
        if !same_identifier(identifier, &INHERENT_IDENTIFIER) {
            return None;
        }
        match InherentError::decode(error) {
            None => None,
            Some(reported) => Some(Err(InherentsError::Application(reported.to_name()))),
        }
    }
}

/// The first byte of encoded inherent data tells whether there are updates, and these follow.
pub proof fn law_inherent_layout(data: InherentType)
    ensures
        data.maybe_updates is None <==> data.code()[0] == 0,
        data.maybe_updates is Some <==> data.code()[0] == 1,
        data.maybe_updates is None ==> data.code().len() == 1,
        data.maybe_updates matches Some(updates) ==> data.code().skip(1) == updates.code(),
{
    match data.maybe_updates {
        None => {},
        Some(updates) => {
            assert(data.code().skip(1) =~= updates.code());
        },
    }
}

/// What the runtime reports is told by its first byte: 0 for missing updates, 1 for incorrect ones,
/// and any other byte, or none, for no error of the messenger.
pub proof fn law_reported_errors(bytes: Seq<u8>)
    ensures
        decoded_error(bytes) == Some(InherentError::MissingAllowlistUpdates) <==> bytes.len() > 0
            && bytes[0] == 0,
        decoded_error(bytes) == Some(InherentError::IncorrectAllowlistUpdates) <==> bytes.len() > 0
            && bytes[0] == 1,
        decoded_error(bytes) is None <==> bytes.len() == 0 || bytes[0] > 1,
{
}

} // verus!
