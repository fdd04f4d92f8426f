//! The bytes of the flags region and of attribute slots, as they are laid
//! into flash when a bootloader image is built.
use vstd::prelude::*;

use crate::engine::slot_bytes;
use crate::protocol::{pad, Error, KEY_LEN, MAX_ATTR_LEN};

verus! {

/// `TOCKBOOTLOADER`, the tag at the start of the flags region.
pub open spec fn flags_tag() -> Seq<u8> {
    seq![0x54u8, 0x4F, 0x43, 0x4B, 0x42, 0x4F, 0x4F, 0x54, 0x4C, 0x4F, 0x41, 0x44, 0x45, 0x52]
}

/// Length of the tag field.
pub const TAG_LEN: usize = 14;
/// Length of the version field.
pub const VERSION_FIELD_LEN: usize = 8;
/// Length of the flags region.
pub const FLAGS_LEN: usize = 512;

/// The flags region: the tag, the version (cut or NUL-padded to 8 bytes),
/// zeros up to 512 bytes.
pub open spec fn flags_region(version: Seq<u8>) -> Seq<u8> {
    flags_tag() + pad(version, VERSION_FIELD_LEN as nat) + Seq::new(
        (FLAGS_LEN - TAG_LEN - VERSION_FIELD_LEN) as nat,
        |i: int| 0u8,
    )
}

/// Appends `s` cut or padded with zeros to `n` bytes.
fn push_padded_to(dest: &mut Vec<u8>, s: &[u8], n: usize)
    ensures
        final(dest)@ == old(dest)@ + pad(s@, n as nat),
{
    let mut i: usize = 0;
    while i < n
        invariant
            i <= n,
            dest@ == old(dest)@ + pad(s@, n as nat).subrange(0, i as int),
        decreases n - i,
    {
        dest.push(if i < s.len() { s[i] } else { 0u8 });
        i = i + 1;
        assert(dest@ =~= old(dest)@ + pad(s@, n as nat).subrange(0, i as int));
    }
    assert(pad(s@, n as nat).subrange(0, i as int) =~= pad(s@, n as nat));
}

/// Appends the flags region for `version` to `dest`.
pub fn write_flags(dest: &mut Vec<u8>, version: &[u8])
    ensures
        final(dest)@ == old(dest)@ + flags_region(version@),
{
    let tag: Vec<u8> = vec![0x54u8, 0x4F, 0x43, 0x4B, 0x42, 0x4F, 0x4F, 0x54, 0x4C, 0x4F, 0x41, 0x44, 0x45, 0x52];
    assert(tag@ =~= flags_tag());
    assert(pad(tag@, TAG_LEN as nat) =~= tag@);
    push_padded_to(dest, tag.as_slice(), TAG_LEN);
    push_padded_to(dest, version, VERSION_FIELD_LEN);
    let none: Vec<u8> = Vec::new();
    push_padded_to(dest, none.as_slice(), FLAGS_LEN - TAG_LEN - VERSION_FIELD_LEN);
    assert(pad(none@, (FLAGS_LEN - TAG_LEN - VERSION_FIELD_LEN) as nat) =~= Seq::new(
        (FLAGS_LEN - TAG_LEN - VERSION_FIELD_LEN) as nat,
        |i: int| 0u8,
    ));
    assert(final(dest)@ =~= old(dest)@ + flags_region(version@));
}

/// Appends the 64-byte attribute slot for `name` (cut or NUL-padded to 8
/// bytes) and `value`; `BadArguments`, and nothing appended, when the value
/// is longer than 55 bytes.
pub fn write_attribute(dest: &mut Vec<u8>, name: &[u8], value: &[u8]) -> (r: Result<(), Error>)
    ensures
        value@.len() <= MAX_ATTR_LEN ==> r == Ok::<(), Error>(()) && final(dest)@ == old(dest)@ + slot_bytes(
            pad(name@, KEY_LEN as nat),
            value@,
        ),
        value@.len() > MAX_ATTR_LEN ==> r == Err::<(), Error>(Error::BadArguments) && final(dest)@ == old(dest)@,
{
    if value.len() > MAX_ATTR_LEN {
        return Err(Error::BadArguments);
    }
    push_padded_to(dest, name, KEY_LEN);
    dest.push(value.len() as u8);
    push_padded_to(dest, value, MAX_ATTR_LEN);
    assert(final(dest)@ =~= old(dest)@ + slot_bytes(pad(name@, KEY_LEN as nat), value@));
    Ok(())
}

} // verus!
