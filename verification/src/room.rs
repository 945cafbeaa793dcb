use vstd::prelude::*;
use crate::numfmt::{format_usize, spec_digits};
use crate::strutil::chars_to_string;

verus! {

pub open spec fn is_hex_digit(c: char) -> bool {
    ('0' <= c && c <= '9') || ('a' <= c && c <= 'f')
}

/// A room identifier is valid when it is exactly 16 lowercase ASCII hex
/// digits (`0-9a-f`); anything else, uppercase included, is rejected.
pub open spec fn spec_valid_room(room: Seq<char>) -> bool {
    room.len() == 16 && forall|i: int| 0 <= i < room.len() ==> is_hex_digit(#[trigger] room[i])
}

/// Checks the shape of a room identifier: 16 lowercase hex digits. Pure;
/// no storage is touched.
pub fn validate_room(room: &str) -> (r: bool)
    ensures
        r == spec_valid_room(room@),
{
    let n = room.unicode_len();
    if n != 16 {
        return false;
    }
    let mut i: usize = 0;
    while i < 16
        invariant
            room@.len() == 16,
            0 <= i <= 16,
            forall|j: int| 0 <= j < i ==> is_hex_digit(#[trigger] room@[j]),
        decreases 16 - i,
    {
        let c = room.get_char(i);
        let ok = ('0' <= c && c <= '9') || ('a' <= c && c <= 'f');
        if !ok {
            return false;
        }
        i = i + 1;
    }
    true
}

/// The storage location of a room, derived from the identifier alone.
pub fn room_path(room: &str) -> (r: String)
    ensures
        r@ == "messages/"@ + room@,
{
    let mut s = String::from_str("messages/");
    s.append(room);
    s
}

/// The storage location of one record: its room's location, then the
/// record's id in decimal with a `.json` suffix.
pub fn message_path(room: &str, id: usize) -> (r: String)
    ensures
        r@ == "messages/"@ + room@ + "/"@ + spec_digits(id as nat) + ".json"@,
{
    let mut s = room_path(room);
    s.append("/");
    let digits = chars_to_string(format_usize(id));
    s.append(digits.as_str());
    s.append(".json");
    assert(s@ =~= "messages/"@ + room@ + "/"@ + spec_digits(id as nat) + ".json"@);
    s
}

} // verus!
