//! JSON values and their compact text.
use vstd::prelude::*;
use vstd::string::StringSliceAdditionalSpecFns;
use vstd::utf8::encode_utf8;
use crate::text::decimal;

verus! {

/// A JSON value whose numbers are natural numbers.
pub enum Json {
    Num(nat),
    Str(Seq<char>),
    Arr(Seq<Json>),
    Obj(Seq<(Seq<char>, Json)>),
}

/// A string that JSON can hold between quotes as it is: no quote, no
/// backslash, no control character.
pub open spec fn plain_string(s: Seq<char>) -> bool {
    forall|i: int| 0 <= i < s.len() ==> #[trigger] s[i] != '"' && s[i] != '\\' && s[i] >= ' '
}

/// `s` between double quotes, as UTF-8.
pub open spec fn quoted(s: Seq<char>) -> Seq<u8> {
    "\"".spec_bytes() + encode_utf8(s) + "\"".spec_bytes()
}

/// Every string in `v`, keys included, is plain.
pub open spec fn plain_strings(v: Json) -> bool
    decreases v,
{
    match v {
        Json::Num(_) => true,
        Json::Str(s) => plain_string(s),
        Json::Arr(items) => forall|i: int| 0 <= i < items.len() ==> plain_strings(#[trigger] items[i]),
        Json::Obj(members) => forall|i: int|
            0 <= i < members.len() ==> plain_string(#[trigger] members[i].0) && plain_strings(
                members[i].1,
            ),
    }
}

/// The compact JSON text of `v`: no whitespace, strings written between quotes as they are.
pub open spec fn render(v: Json) -> Seq<u8>
    decreases v, 0nat,
{
    match v {
        Json::Num(n) => decimal(n),
        Json::Str(s) => quoted(s),
        Json::Arr(items) => "[".spec_bytes() + render_items(items, items.len() as nat) + "]".spec_bytes(),
        Json::Obj(members) => "{".spec_bytes() + render_members(members, members.len() as nat)
            + "}".spec_bytes(),
    }
}

/// The first `n` items, separated by commas.
pub open spec fn render_items(items: Seq<Json>, n: nat) -> Seq<u8>
    decreases items, n,
{
    if n == 0 || n > items.len() {
        seq![]
    } else if n == 1 {
        render(items[0])
    } else {
        render_items(items, (n - 1) as nat) + ",".spec_bytes() + render(items[n - 1])
    }
}

/// The first `n` members, as `"key":value`, separated by commas.
pub open spec fn render_members(members: Seq<(Seq<char>, Json)>, n: nat) -> Seq<u8>
    decreases members, n,
{
    if n == 0 || n > members.len() {
        seq![]
    } else if n == 1 {
        quoted(members[0].0) + ":".spec_bytes() + render(members[0].1)
    } else {
        render_members(members, (n - 1) as nat) + ",".spec_bytes() + quoted(members[n - 1].0)
            + ":".spec_bytes() + render(members[n - 1].1)
    }
}

} // verus!
