use vstd::prelude::*;

verus! {

/// The identity of a caller: the 32 raw bytes of its public key.
#[derive(Clone, Copy, Debug)]
pub struct Owner {
    pub bytes: [u8; 32],
}

impl View for Owner {
    type V = Seq<u8>;

    open spec fn view(&self) -> Seq<u8> {
        self.bytes@
    }
}

/// A derived storage address: 32 bytes that name one storage slot.
/// Addresses are never chosen freely; they come out of [`derive_entry_address`].
#[derive(Clone, Copy, Debug)]
pub struct Address {
    pub bytes: [u8; 32],
}

impl View for Address {
    type V = Seq<u8>;

    open spec fn view(&self) -> Seq<u8> {
        self.bytes@
    }
}

/// Compares two 32-byte keys for equality, byte by byte.
pub fn bytes32_eq(a: &[u8; 32], b: &[u8; 32]) -> (r: bool)
    ensures
        r == (a@ == b@),
{
    let mut i: usize = 0;
    while i < 32
        invariant
            0 <= i <= 32,
            forall|k: int| 0 <= k < i ==> a@[k] == b@[k],
        decreases 32 - i,
    {
        if a[i] != b[i] {
            assert(a@[i as int] != b@[i as int]);
            return false;
        }
        i = i + 1;
    }
    proof {
        assert(a@ =~= b@);
    }
    true
}

/// The address that the derivation yields for a given program key, namespace
/// tag, owner key and discriminator, or `None` in the negligible case that no
/// viable address exists for these seeds. The derivation is a fixed
/// cryptographic function of its arguments alone.
pub uninterp spec fn derived_address(
    program: Seq<u8>,
    tag: Seq<u8>,
    owner: Seq<u8>,
    disc: Seq<u8>,
) -> Option<Seq<u8>>;

/// Relies on `Pubkey::try_find_program_address` (anchor_lang's re-export of
/// the ledger's address derivation): the result is a cryptographic hash of the
/// seeds and program key alone, so the same inputs always yield the same
/// address; it returns `None` only when no bump byte gives a viable address.
#[verifier::external_body]
fn find_pda(program: &[u8; 32], tag: &[u8], owner: &[u8; 32], disc: &[u8]) -> (r: Option<
    Address,
>)
    requires
        tag@.len() <= 32,
        disc@.len() <= 32,
    ensures
        match r {
            Some(a) => derived_address(program@, tag@, owner@, disc@) == Some(a@),
            None => derived_address(program@, tag@, owner@, disc@) is None,
        },
{
    let pid = anchor_lang::solana_program::pubkey::Pubkey::new_from_array(*program);
    match anchor_lang::solana_program::pubkey::Pubkey::try_find_program_address(
        &[tag, owner, disc],
        &pid,
    ) {
        Some((pk, _bump)) => Some(Address { bytes: pk.to_bytes() }),
        None => None,
    }
}

/// The program key under which all of this library's addresses are derived.
pub open spec fn program_id_bytes() -> Seq<u8> {
    seq![
        50u8, 28u8, 96u8, 194u8, 29u8, 140u8, 126u8, 170u8, 94u8, 137u8, 176u8, 198u8, 107u8,
        16u8, 235u8, 59u8, 125u8, 152u8, 97u8, 221u8, 239u8, 21u8, 163u8, 18u8, 97u8, 236u8,
        156u8, 27u8, 57u8, 144u8, 201u8, 185u8,
    ]
}

/// The program key as bytes, for use in executable code.
pub fn program_id() -> (r: [u8; 32])
    ensures
        r@ == program_id_bytes(),
{
    let a: [u8; 32] = [
        50u8, 28u8, 96u8, 194u8, 29u8, 140u8, 126u8, 170u8, 94u8, 137u8, 176u8, 198u8, 107u8,
        16u8, 235u8, 59u8, 125u8, 152u8, 97u8, 221u8, 239u8, 21u8, 163u8, 18u8, 97u8, 236u8,
        156u8, 27u8, 57u8, 144u8, 201u8, 185u8,
    ];
    proof {
        assert(a@ =~= program_id_bytes());
    }
    a
}

/// The namespace tag under which entry addresses are derived: the bytes of "entry".
pub open spec fn entry_tag() -> Seq<u8> {
    seq![101u8, 110u8, 116u8, 114u8, 121u8]
}

/// The address at which the entry with the given owner and id lives.
pub open spec fn entry_address_for(owner: Seq<u8>, id: u64) -> Option<Seq<u8>> {
    derived_address(
        program_id_bytes(),
        entry_tag(),
        owner,
        vstd::bytes::spec_u64_to_le_bytes(id),
    )
}

/// Derives the storage address for the entry that `owner` creates under id
/// `id`: the namespace tag, the owner's key and the little-endian id bytes are
/// the seeds of the derivation.
pub fn derive_entry_address(owner: &Owner, id: u64) -> (r: Option<Address>)
    ensures
        match r {
            Some(a) => entry_address_for(owner@, id) == Some(a@),
            None => entry_address_for(owner@, id) is None,
        },
{
    let tag: [u8; 5] = [101u8, 110u8, 116u8, 114u8, 121u8];
    proof {
        assert(tag@ =~= entry_tag());
    }
    let disc = vstd::bytes::u64_to_le_bytes(id);
    let pid = program_id();
    find_pda(
        &pid,
        vstd::array::array_as_slice(&tag),
        &owner.bytes,
        disc.as_slice(),
    )
}

} // verus!
