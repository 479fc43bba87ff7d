//! Reading the files-info section: the names and the metadata of the files.

use vstd::prelude::*;
use crate::writer::bytes::lemma_assoc;
use crate::archive::{
    ArchiveEntry,
    K_ANTI,
    K_A_TIME,
    K_C_TIME,
    K_EMPTY_FILE,
    K_EMPTY_STREAM,
    K_END,
    K_FILES_INFO,
    K_M_TIME,
    K_NAME,
    K_WIN_ATTRIBUTES,
};
use crate::reader::primitives::{
    count_flags,
    count_set,
    lemma_count_set_bound,
    lemma_parsed_bits,
    lemma_parsed_fixed,
    lemma_parsed_fixed_len,
    lemma_parsed_presence,
    lemma_selected_len,
    lemma_selected_spread,
    lemma_spread_selected,
    parsed_bits,
    parsed_fixed,
    parsed_presence,
    read_bits,
    read_fixed,
    read_number,
    read_presence,
    spread,
    spread_values,
};
use crate::reader::streams::{after, has_tag, lemma_after, lemma_tag, tag_at};
use crate::writer::bytes::{packed_bits, selected};
use crate::writer::files_info::{
    bits_section_bytes,
    le_all,
    presence_bytes,
    property_bytes,
    sized,
    utf16_text,
};
use crate::writer::varint::{
    decoded_u64,
    encoded_u64,
    lemma_decode_encode,
    lemma_pow256_values,
    pow256,
};

verus! {

/// A section of one bit for each of `count` items, read at position `at`:
/// where the section is not there, no bit is set. With the bits comes the
/// position behind the section. The section must be as long as it says.
pub open spec fn parsed_bits_section(bytes: Seq<u8>, at: nat, nid: u8, count: nat) -> Option<
    (Seq<bool>, nat),
> {
    if tag_at(bytes, at, nid) {
        match decoded_u64(after(bytes, at + 1)) {
            None => None,
            Some((size, a)) => match parsed_bits(after(bytes, at + 1 + a), count) {
                None => None,
                Some((flags, taken)) => if taken == size {
                    Some((flags, at + 1 + a + taken))
                } else {
                    None
                },
            },
        }
    } else {
        Some((Seq::new(count, |i: int| false), at))
    }
}

/// Reading the bit section that the writer makes gives the flags back.
pub proof fn lemma_parsed_bits_section(
    nid: u8,
    flags: Seq<bool>,
    bytes: Seq<u8>,
    at: nat,
    rest: Seq<u8>,
)
    requires
        flags.len() <= usize::MAX,
        at <= bytes.len(),
        after(bytes, at) == bits_section_bytes(nid, flags) + rest,
        rest.len() > 0,
        rest[0] != nid,
    ensures
        parsed_bits_section(bytes, at, nid, flags.len()) == Some(
            (flags, at + bits_section_bytes(nid, flags).len()),
        ),
        after(bytes, at + bits_section_bytes(nid, flags).len()) == rest,
        at + bits_section_bytes(nid, flags).len() <= bytes.len(),
{
    let section = bits_section_bytes(nid, flags);
    lemma_after(bytes, at, section, rest);
    if exists|i: int| 0 <= i < flags.len() && flags[i] {
        let packed = packed_bits(flags);
        let size = encoded_u64(packed.len() as u64);
        assert(section == seq![nid] + (size + packed));
        lemma_assoc(seq![nid], size + packed, rest);
        lemma_assoc(size, packed, rest);
        lemma_tag(bytes, at, nid, size + (packed + rest));
        lemma_decode_encode(packed.len() as u64, packed + rest);
        lemma_after(bytes, at + 1, size, packed + rest);
        lemma_parsed_bits(flags, rest);
        assert(section.len() == 1 + size.len() + packed.len());
    } else {
        assert(section + rest =~= rest);
        assert(after(bytes, at)[0] == bytes[at as int]);
        assert(flags =~= Seq::new(flags.len(), |i: int| false));
    }
}

/// A section of one bit for each of `count` items, read at position `at`.
pub fn read_bits_section(section: &[u8], at: usize, nid: u8, count: u64) -> (found: Option<
    (Vec<bool>, usize),
>)
    requires
        at <= section@.len(),
        count <= usize::MAX,
    ensures
        match parsed_bits_section(section@, at as nat, nid, count as nat) {
            Some((flags, next)) => found is Some && (found->0).0@ == flags && (found->0).1 == next
                && at <= next <= section@.len() && flags.len() == count,
            None => found is None,
        },
{
    if has_tag(section, at, nid) {
        let (size, from) = match read_number(section, at + 1) {
            Some(found) => found,
            None => {
                return None;
            },
        };
        let (flags, next) = match read_bits(section, from, count) {
            Some(found) => found,
            None => {
                return None;
            },
        };
        if (next - from) as u64 != size {
            return None;
        }
        Some((flags, next))
    } else {
        let mut flags: Vec<bool> = Vec::new();
        let mut i: u64 = 0;
        while i < count
            invariant
                i <= count,
                flags@ == Seq::new(i as nat, |k: int| false),
            decreases count - i,
        {
            flags.push(false);
            i = i + 1;
            assert(flags@ =~= Seq::new(i as nat, |k: int| false));
        }
        Some((flags, at))
    }
}

/// A section of one fixed-width number for each of the `count` items that has
/// the property, read at position `at`: where the section is not there, no
/// item has the property. An item without the property reads as zero. The
/// section must be as long as it says, and its numbers stored in place.
pub open spec fn parsed_property(bytes: Seq<u8>, at: nat, nid: u8, count: nat, width: nat)
    -> Option<((Seq<bool>, Seq<u64>), nat)> {
    if tag_at(bytes, at, nid) {
        match decoded_u64(after(bytes, at + 1)) {
            None => None,
            Some((size, a)) => match parsed_presence(after(bytes, at + 1 + a), count) {
                None => None,
                Some((defined, b)) => if !tag_at(bytes, at + 1 + a + b, 0) {
                    None
                } else {
                    match parsed_fixed(
                        after(bytes, at + 1 + a + b + 1),
                        count_set(defined),
                        width,
                    ) {
                        None => None,
                        Some((values, c)) => if b + 1 + c == size {
                            Some(
                                (
                                    (defined, spread(defined, values, 0u64)),
                                    at + 1 + a + b + 1 + c,
                                ),
                            )
                        } else {
                            None
                        },
                    }
                },
            },
        }
    } else {
        Some(((Seq::new(count, |i: int| false), Seq::new(count, |i: int| 0u64)), at))
    }
}

/// Reading the property section that the writer makes gives the flags and the
/// numbers back, as long as each number fits the width and is zero where the
/// flag is not set.
#[verifier::rlimit(50)]
pub proof fn lemma_parsed_property(
    nid: u8,
    defined: Seq<bool>,
    values: Seq<u64>,
    width: nat,
    bytes: Seq<u8>,
    at: nat,
    rest: Seq<u8>,
)
    requires
        defined.len() == values.len(),
        defined.len() <= usize::MAX,
        1 <= width <= 8,
        forall|i: int| 0 <= i < values.len() ==> (#[trigger] values[i]) < pow256(width),
        forall|i: int| 0 <= i < values.len() && !defined[i] ==> values[i] == 0,
        at <= bytes.len() <= u64::MAX,
        after(bytes, at) == property_bytes(nid, defined, values, width) + rest,
        rest.len() > 0,
        rest[0] != nid,
    ensures
        parsed_property(bytes, at, nid, defined.len(), width) == Some(
            ((defined, values), at + property_bytes(nid, defined, values, width).len()),
        ),
        after(bytes, at + property_bytes(nid, defined, values, width).len()) == rest,
        at + property_bytes(nid, defined, values, width).len() <= bytes.len(),
{
    let section = property_bytes(nid, defined, values, width);
    lemma_after(bytes, at, section, rest);
    if exists|i: int| 0 <= i < defined.len() && defined[i] {
        let chosen = selected(defined, values);
        let presence = presence_bytes(defined);
        let numbers = le_all(chosen, width);
        let payload = presence + seq![0u8] + numbers;
        let size = encoded_u64(payload.len() as u64);
        assert(section == seq![nid] + (size + payload));
        lemma_assoc(seq![nid], size + payload, rest);
        lemma_assoc(size, payload, rest);
        lemma_assoc(presence + seq![0u8], numbers, rest);
        lemma_assoc(presence, seq![0u8], numbers + rest);
        let r3 = numbers + rest;
        let r2 = seq![0u8] + r3;
        let r1 = presence + r2;
        lemma_tag(bytes, at, nid, size + r1);
        lemma_decode_encode(payload.len() as u64, r1);
        lemma_after(bytes, at + 1, size, r1);
        lemma_parsed_presence(defined, r2);
        lemma_after(bytes, at + 1 + size.len(), presence, r2);
        lemma_tag(bytes, at + 1 + size.len() + presence.len(), 0u8, r3);
        lemma_selected_len(defined, values);
        assert forall|i: int| 0 <= i < chosen.len() implies (#[trigger] chosen[i]) < pow256(
            width,
        ) by {
            lemma_selected_member(defined, values, i);
        }
        lemma_parsed_fixed(chosen, width, rest);
        lemma_after(bytes, at + 1 + size.len() + presence.len() + 1, numbers, rest);
        lemma_spread_selected(defined, values, 0u64);
        assert(payload.len() == presence.len() + 1 + numbers.len());
        assert(section.len() == 1 + size.len() + payload.len());

    } else {
        assert(section + rest =~= rest);
        assert(after(bytes, at)[0] == bytes[at as int]);
        assert(defined =~= Seq::new(defined.len(), |i: int| false));
        assert(values =~= Seq::new(defined.len(), |i: int| 0u64));
    }
}

/// Every selected item is one of the items.
pub proof fn lemma_selected_member<T>(flags: Seq<bool>, values: Seq<T>, i: int)
    requires
        flags.len() == values.len(),
        0 <= i < selected(flags, values).len(),
    ensures
        exists|j: int| 0 <= j < values.len() && values[j] == selected(flags, values)[i],
    decreases flags.len(),
{
    if flags.len() > 0 {
        let front = selected(flags.drop_last(), values.drop_last());
        if i < front.len() {
            lemma_selected_member(flags.drop_last(), values.drop_last(), i);
            let j = choose|j: int|
                0 <= j < values.drop_last().len() && values.drop_last()[j] == front[i];
            assert(values[j] == selected(flags, values)[i]);
        } else {
            assert(values[values.len() - 1] == selected(flags, values)[i]);
        }
    }
}

/// A section of one fixed-width number for each item that has the property,
/// read at position `at`.
#[verifier::rlimit(50)]
pub fn read_property(section: &[u8], at: usize, nid: u8, count: u64, width: usize) -> (found:
    Option<(Vec<bool>, Vec<u64>, usize)>)
    requires
        at <= section@.len(),
        count <= usize::MAX,
        1 <= width <= 8,
    ensures
        match parsed_property(section@, at as nat, nid, count as nat, width as nat) {
            Some((property, next)) => {
                &&& found is Some
                &&& (found->0).0@ == property.0
                &&& (found->0).1@ == property.1
                &&& (found->0).2 == next
                &&& at <= next <= section@.len()
                &&& property.0.len() == count
                &&& property.1.len() == count
            },
            None => found is None,
        },
{
    if has_tag(section, at, nid) {
        let (size, from) = match read_number(section, at + 1) {
            Some(found) => found,
            None => {
                return None;
            },
        };
        let (defined, next) = match read_presence(section, from, count) {
            Some(found) => found,
            None => {
                return None;
            },
        };
        if !has_tag(section, next, 0) {
            return None;
        }
        let present = count_flags(&defined);
        let (values, end) = match read_fixed(section, next + 1, present, width) {
            Some(found) => found,
            None => {
                return None;
            },
        };
        if (end - from) as u64 != size {
            return None;
        }
        proof {
            lemma_parsed_fixed_len(after(section@, (next + 1) as nat), present as nat, width as nat);
            lemma_selected_spread(defined@, values@, 0u64);
            lemma_parsed_presence_len(after(section@, from as nat), count as nat);
        }
        let all = spread_values(&defined, &values, 0);
        Some((defined, all, end))
    } else {
        let mut defined: Vec<bool> = Vec::new();
        let mut all: Vec<u64> = Vec::new();
        let mut i: u64 = 0;
        while i < count
            invariant
                i <= count,
                defined@ == Seq::new(i as nat, |k: int| false),
                all@ == Seq::new(i as nat, |k: int| 0u64),
            decreases count - i,
        {
            defined.push(false);
            all.push(0);
            i = i + 1;
            assert(defined@ =~= Seq::new(i as nat, |k: int| false));
            assert(all@ =~= Seq::new(i as nat, |k: int| 0u64));
        }
        Some((defined, all, at))
    }
}

/// What is read of presence has one flag for each item.
pub proof fn lemma_parsed_presence_len(bytes: Seq<u8>, count: nat)
    requires
        parsed_presence(bytes, count) is Some,
    ensures
        (parsed_presence(bytes, count)->0).0.len() == count,
{
}

/// The code unit that two bytes spell, low byte first.
pub open spec fn unit_of(low: u8, high: u8) -> u16 {
    (low as int + 256 * high as int) as u16
}

/// Code units as bytes, each unit low byte first.
pub open spec fn le16_all(units: Seq<u16>) -> Seq<u8>
    decreases units.len(),
{
    if units.len() == 0 {
        Seq::empty()
    } else {
        seq![(units[0] % 256) as u8, (units[0] / 256) as u8] + le16_all(units.skip(1))
    }
}

/// The names one behind the other, each closed by a zero code unit.
pub open spec fn name_list_bytes(names: Seq<Seq<u16>>) -> Seq<u8>
    decreases names.len(),
{
    if names.len() == 0 {
        Seq::empty()
    } else {
        le16_all(names[0]) + seq![0u8, 0u8] + name_list_bytes(names.skip(1))
    }
}

/// The names section for names given in code units.
pub open spec fn names_section_bytes(names: Seq<Seq<u16>>) -> Seq<u8> {
    seq![K_NAME] + sized(seq![0u8] + name_list_bytes(names))
}

/// One name: the code units up to the first zero unit.
pub open spec fn parsed_name(bytes: Seq<u8>) -> Option<(Seq<u16>, nat)>
    decreases bytes.len(),
{
    if bytes.len() < 2 {
        None
    } else if unit_of(bytes[0], bytes[1]) == 0 {
        Some((Seq::empty(), 2))
    } else {
        match parsed_name(bytes.skip(2)) {
            None => None,
            Some((others, more)) => Some((seq![unit_of(bytes[0], bytes[1])] + others, 2 + more)),
        }
    }
}

/// `count` names, one behind the other.
pub open spec fn parsed_name_list(bytes: Seq<u8>, count: nat) -> Option<(Seq<Seq<u16>>, nat)>
    decreases count,
{
    if count == 0 {
        Some((Seq::empty(), 0))
    } else {
        match parsed_name(bytes) {
            None => None,
            Some((first, taken)) => match parsed_name_list(
                after(bytes, taken),
                (count - 1) as nat,
            ) {
                None => None,
                Some((others, more)) => Some((seq![first] + others, taken + more)),
            },
        }
    }
}

/// The names section, read at position `at`. The section must be there, hold
/// its names in place, and be as long as it says.
pub open spec fn parsed_names(bytes: Seq<u8>, at: nat, count: nat) -> Option<
    (Seq<Seq<u16>>, nat),
> {
    if !tag_at(bytes, at, K_NAME) {
        None
    } else {
        match decoded_u64(after(bytes, at + 1)) {
            None => None,
            Some((size, a)) => if !tag_at(bytes, at + 1 + a, 0) {
                None
            } else {
                match parsed_name_list(after(bytes, at + 1 + a + 1), count) {
                    None => None,
                    Some((names, taken)) => if 1 + taken == size {
                        Some((names, at + 1 + a + 1 + taken))
                    } else {
                        None
                    },
                }
            },
        }
    }
}

/// Whether a name holds no zero code unit.
pub open spec fn name_fits(name: Seq<u16>) -> bool {
    forall|i: int| 0 <= i < name.len() ==> name[i] != 0
}

/// Whether no name holds a zero code unit.
#[verifier::opaque]
pub open spec fn names_fit(names: Seq<Seq<u16>>) -> bool {
    forall|i: int| 0 <= i < names.len() ==> name_fits(#[trigger] names[i])
}

/// Where no name holds a zero unit, the first name holds none, nor do the
/// others.
pub proof fn lemma_names_fit_front(names: Seq<Seq<u16>>)
    requires
        names_fit(names),
        names.len() > 0,
    ensures
        name_fits(names[0]),
        names_fit(names.skip(1)),
{
    reveal(names_fit);
    assert forall|i: int| 0 <= i < names.skip(1).len() implies name_fits(
        #[trigger] names.skip(1)[i],
    ) by {
        assert(names.skip(1)[i] == names[i + 1]);
    }
}

/// No name holds a zero unit if the first holds none, nor the others.
pub proof fn lemma_names_fit_build(first: Seq<u16>, others: Seq<Seq<u16>>)
    requires
        name_fits(first),
        names_fit(others),
    ensures
        names_fit(seq![first] + others),
{
    reveal(names_fit);
    let all = seq![first] + others;
    assert forall|i: int| 0 <= i < all.len() implies name_fits(#[trigger] all[i]) by {
        if i > 0 {
            assert(all[i] == others[i - 1]);
        }
    }
}

/// Reading a name that is closed by a zero unit gives the name back.
pub proof fn lemma_parsed_name(name: Seq<u16>, rest: Seq<u8>)
    requires
        name_fits(name),
    ensures
        parsed_name(le16_all(name) + seq![0u8, 0u8] + rest) == Some(
            (name, (le16_all(name) + seq![0u8, 0u8]).len()),
        ),
        le16_all(name).len() == 2 * name.len(),
    decreases name.len(),
{
    let bytes = le16_all(name) + seq![0u8, 0u8] + rest;
    if name.len() == 0 {
        assert(bytes[0] == 0u8 && bytes[1] == 0u8);
        assert(name =~= Seq::<u16>::empty());
    } else {
        let unit = name[0];
        let low = (unit % 256) as u8;
        let high = (unit / 256) as u8;
        let others = le16_all(name.skip(1));
        assert(le16_all(name) == seq![low, high] + others);
        assert(bytes[0] == low && bytes[1] == high);
        assert(unit_of(low, high) == unit);
        assert(bytes.skip(2) =~= others + seq![0u8, 0u8] + rest);
        assert forall|i: int| 0 <= i < name.skip(1).len() implies name.skip(1)[i] != 0 by {
            assert(name.skip(1)[i] == name[i + 1]);
        }
        lemma_parsed_name(name.skip(1), rest);
        assert(seq![unit] + name.skip(1) =~= name);
    }
}

/// What is read as a name holds no zero unit, and takes two bytes for each
/// unit and two for the zero behind them.
pub proof fn lemma_parsed_name_shape(bytes: Seq<u8>)
    requires
        parsed_name(bytes) is Some,
    ensures
        name_fits((parsed_name(bytes)->0).0),
        (parsed_name(bytes)->0).1 == 2 * (parsed_name(bytes)->0).0.len() + 2,
        (parsed_name(bytes)->0).1 <= bytes.len(),
    decreases bytes.len(),
{
    if unit_of(bytes[0], bytes[1]) != 0 {
        lemma_parsed_name_shape(bytes.skip(2));
        let name = (parsed_name(bytes)->0).0;
        let others = (parsed_name(bytes.skip(2))->0).0;
        assert forall|i: int| 0 <= i < name.len() implies name[i] != 0 by {
            if i > 0 {
                assert(name[i] == others[i - 1]);
            }
        }
    }
}

/// Reading the list of names that the writer makes gives the names back.
#[verifier::rlimit(50)]
pub proof fn lemma_parsed_name_list(names: Seq<Seq<u16>>, rest: Seq<u8>)
    requires
        names_fit(names),
    ensures
        parsed_name_list(name_list_bytes(names) + rest, names.len()) == Some(
            (names, name_list_bytes(names).len()),
        ),
    decreases names.len(),
{
    if names.len() == 0 {
        assert(names =~= Seq::<Seq<u16>>::empty());
    } else {
        let first = le16_all(names[0]) + seq![0u8, 0u8];
        let others = name_list_bytes(names.skip(1));
        let bytes = name_list_bytes(names) + rest;
        lemma_names_fit_front(names);
        lemma_assoc(first, others, rest);
        lemma_parsed_name(names[0], others + rest);
        assert(after(bytes, 0) =~= bytes);
        lemma_after(bytes, 0, first, others + rest);
        lemma_parsed_name_list(names.skip(1), rest);
        assert(seq![names[0]] + names.skip(1) =~= names);
    }
}

/// What is read as a list of names has as many names as were asked for, none
/// with a zero unit.
pub proof fn lemma_parsed_name_list_shape(bytes: Seq<u8>, count: nat)
    requires
        parsed_name_list(bytes, count) is Some,
    ensures
        (parsed_name_list(bytes, count)->0).0.len() == count,
        names_fit((parsed_name_list(bytes, count)->0).0),
        2 * count <= (parsed_name_list(bytes, count)->0).1 <= bytes.len(),
    decreases count,
{
    if count > 0 {
        lemma_parsed_name_shape(bytes);
        let taken = (parsed_name(bytes)->0).1;
        lemma_parsed_name_list_shape(after(bytes, taken), (count - 1) as nat);
        lemma_names_fit_build(
            (parsed_name(bytes)->0).0,
            (parsed_name_list(after(bytes, taken), (count - 1) as nat)->0).0,
        );
    } else {
        reveal(names_fit);
    }
}

/// Reading the names section that the writer makes gives the names back.
#[verifier::rlimit(50)]
pub proof fn lemma_parsed_names(names: Seq<Seq<u16>>, bytes: Seq<u8>, at: nat, rest: Seq<u8>)
    requires
        names_fit(names),
        at <= bytes.len() <= u64::MAX,
        after(bytes, at) == names_section_bytes(names) + rest,
    ensures
        parsed_names(bytes, at, names.len()) == Some(
            (names, at + names_section_bytes(names).len()),
        ),
        after(bytes, at + names_section_bytes(names).len()) == rest,
        at + names_section_bytes(names).len() <= bytes.len(),
{
    let section = names_section_bytes(names);
    let list = name_list_bytes(names);
    let payload = seq![0u8] + list;
    let size = encoded_u64(payload.len() as u64);
    lemma_after(bytes, at, section, rest);
    assert(section == seq![K_NAME] + (size + payload));
    lemma_assoc(seq![K_NAME], size + payload, rest);
    lemma_assoc(size, payload, rest);
    lemma_assoc(seq![0u8], list, rest);
    let r2 = list + rest;
    let r1 = seq![0u8] + r2;
    lemma_tag(bytes, at, K_NAME, size + r1);
    lemma_decode_encode(payload.len() as u64, r1);
    lemma_after(bytes, at + 1, size, r1);
    lemma_tag(bytes, at + 1 + size.len(), 0u8, r2);
    lemma_parsed_name_list(names, rest);
    lemma_after(bytes, at + 1 + size.len() + 1, list, rest);
    assert(section.len() == 1 + size.len() + payload.len());
    assert(payload.len() == 1 + list.len());
}

/// One name at position `at`.
pub fn read_name(section: &[u8], at: usize) -> (found: Option<(Vec<u16>, usize)>)
    requires
        at <= section@.len(),
    ensures
        match parsed_name(after(section@, at as nat)) {
            Some((name, taken)) => found is Some && (found->0).0@ == name && (found->0).1 == at
                + taken && at + taken <= section@.len(),
            None => found is None,
        },
{
    let ghost start = after(section@, at as nat);
    let len: usize = section.len();
    let mut name: Vec<u16> = Vec::new();
    let mut pos: usize = at;
    loop
        invariant
            at <= pos <= section@.len() == len,
            start == after(section@, at as nat),
            parsed_name(start) == match parsed_name(after(section@, pos as nat)) {
                Some((others, more)) => Some((name@ + others, (pos - at + more) as nat)),
                None => None,
            },
        decreases len - pos,
    {
        let ghost here = after(section@, pos as nat);
        if len - pos < 2 {
            return None;
        }
        let low: u8 = section[pos];
        let high: u8 = section[pos + 1];
        assert(here[0] == low && here[1] == high);
        let unit: u16 = low as u16 + 256 * (high as u16);
        if unit == 0 {
            proof {
                assert(name@ + Seq::<u16>::empty() =~= name@);
            }
            return Some((name, pos + 2));
        }
        proof {
            assert(here.skip(2) =~= after(section@, (pos + 2) as nat));
            match parsed_name(after(section@, (pos + 2) as nat)) {
                Some((others, more)) => {
                    assert(name@ + (seq![unit] + others) =~= name@.push(unit) + others);
                },
                None => {},
            }
        }
        name.push(unit);
        pos = pos + 2;
    }
}

/// The names section, read at position `at`.
#[verifier::rlimit(50)]
pub fn read_names(section: &[u8], at: usize, count: u64) -> (found: Option<(Vec<Vec<u16>>, usize)>)
    requires
        at <= section@.len(),
    ensures
        match parsed_names(section@, at as nat, count as nat) {
            Some((names, next)) => found is Some && names_view((found->0).0@) == names && (
            found->0).1 == next && at <= next <= section@.len() && names.len() == count
                && names_fit(names),
            None => found is None,
        },
{
    if !has_tag(section, at, K_NAME) {
        return None;
    }
    let (size, from) = match read_number(section, at + 1) {
        Some(found) => found,
        None => {
            return None;
        },
    };
    if !has_tag(section, from, 0) {
        return None;
    }
    let ghost start = after(section@, (from + 1) as nat);
    let ghost goal = parsed_names(section@, at as nat, count as nat);
    assert(goal == match parsed_name_list(start, count as nat) {
        None => None,
        Some((names, taken)) => if 1 + taken == size {
            Some((names, (from + 1 + taken) as nat))
        } else {
            None
        },
    });
    let mut names: Vec<Vec<u16>> = Vec::new();
    let mut pos: usize = from + 1;
    let mut left: u64 = count;
    while left > 0
        invariant
            from + 1 <= pos <= section@.len(),
            start == after(section@, (from + 1) as nat),
            goal == parsed_names(section@, at as nat, count as nat),
            goal == match parsed_name_list(start, count as nat) {
                None => None,
                Some((names, taken)) => if 1 + taken == size {
                    Some((names, (from + 1 + taken) as nat))
                } else {
                    None
                },
            },
            parsed_name_list(start, count as nat) == match parsed_name_list(
                after(section@, pos as nat),
                left as nat,
            ) {
                Some((others, more)) => Some(
                    (names_view(names@) + others, (pos - (from + 1) + more) as nat),
                ),
                None => None,
            },
        decreases left,
    {
        let ghost here = after(section@, pos as nat);
        match read_name(section, pos) {
            None => {
                return None;
            },
            Some((name, next)) => {
                proof {
                    assert(after(here, (next - pos) as nat) =~= after(section@, next as nat));
                    match parsed_name_list(after(section@, next as nat), (left - 1) as nat) {
                        Some((others, more)) => {
                            assert(names_view(names@) + (seq![name@] + others) =~= names_view(
                                names@.push(name),
                            ) + others);
                        },
                        None => {},
                    }
                }
                names.push(name);
                pos = next;
                left = left - 1;
            },
        }
    }
    proof {
        assert(names_view(names@) + Seq::<Seq<u16>>::empty() =~= names_view(names@));
        lemma_parsed_name_list_shape(start, count as nat);
    }
    if (pos - from) as u64 != size {
        return None;
    }
    Some((names, pos))
}

/// The names that a list of lists of code units stands for.
pub open spec fn names_view(names: Seq<Vec<u16>>) -> Seq<Seq<u16>> {
    Seq::new(names.len(), |i: int| names[i]@)
}

/// A file as a header describes it. The name is in UTF-16 code units.
pub struct FileModel {
    pub name: Seq<u16>,
    pub has_stream: bool,
    pub is_directory: bool,
    pub is_anti_item: bool,
    pub has_creation_date: bool,
    pub creation_date: u64,
    pub has_access_date: bool,
    pub access_date: u64,
    pub has_last_modified_date: bool,
    pub last_modified_date: u64,
    pub has_windows_attributes: bool,
    pub windows_attributes: u32,
}

/// What the sections of a files-info section hold, each for all files: the
/// names; which files have no stream; of those, which are empty files and
/// which anti-items; and for the three times and the attributes, which files
/// have them and their values.
pub struct FileColumns {
    pub names: Seq<Seq<u16>>,
    pub empty_stream: Seq<bool>,
    pub empty_file: Seq<bool>,
    pub anti: Seq<bool>,
    pub creation: (Seq<bool>, Seq<u64>),
    pub access: (Seq<bool>, Seq<u64>),
    pub modified: (Seq<bool>, Seq<u64>),
    pub attributes: (Seq<bool>, Seq<u64>),
}

/// File `i` as the columns describe it. A file without a stream is a
/// directory unless it is marked as an empty file.
pub open spec fn file_from(columns: FileColumns, i: int) -> FileModel {
    let empty_file = spread(columns.empty_stream, columns.empty_file, false);
    let anti = spread(columns.empty_stream, columns.anti, false);
    FileModel {
        name: columns.names[i],
        has_stream: !columns.empty_stream[i],
        is_directory: columns.empty_stream[i] && !empty_file[i],
        is_anti_item: columns.empty_stream[i] && anti[i],
        has_creation_date: columns.creation.0[i],
        creation_date: columns.creation.1[i],
        has_access_date: columns.access.0[i],
        access_date: columns.access.1[i],
        has_last_modified_date: columns.modified.0[i],
        last_modified_date: columns.modified.1[i],
        has_windows_attributes: columns.attributes.0[i],
        windows_attributes: columns.attributes.1[i] as u32,
    }
}

/// The files as the columns describe them.
pub open spec fn files_from(columns: FileColumns) -> Seq<FileModel> {
    Seq::new(columns.names.len(), |i: int| file_from(columns, i))
}

/// The columns of a list of files.
pub open spec fn columns_of(files: Seq<FileModel>) -> FileColumns {
    let empty_stream = Seq::new(files.len(), |i: int| !files[i].has_stream);
    FileColumns {
        names: Seq::new(files.len(), |i: int| files[i].name),
        empty_stream,
        empty_file: selected(empty_stream, Seq::new(files.len(), |i: int| !files[i].is_directory)),
        anti: selected(empty_stream, Seq::new(files.len(), |i: int| files[i].is_anti_item)),
        creation: (
            Seq::new(files.len(), |i: int| files[i].has_creation_date),
            Seq::new(files.len(), |i: int| files[i].creation_date),
        ),
        access: (
            Seq::new(files.len(), |i: int| files[i].has_access_date),
            Seq::new(files.len(), |i: int| files[i].access_date),
        ),
        modified: (
            Seq::new(files.len(), |i: int| files[i].has_last_modified_date),
            Seq::new(files.len(), |i: int| files[i].last_modified_date),
        ),
        attributes: (
            Seq::new(files.len(), |i: int| files[i].has_windows_attributes),
            Seq::new(files.len(), |i: int| files[i].windows_attributes as u64),
        ),
    }
}

/// The form in which a header holds a file: only a file without a stream can
/// be a directory or an anti-item; a time or attributes that the file does not
/// have are zero; and the name is some text in UTF-16 without a zero unit.
pub open spec fn file_canonical(file: FileModel) -> bool {
    &&& file.has_stream ==> !file.is_directory && !file.is_anti_item
    &&& !file.has_creation_date ==> file.creation_date == 0
    &&& !file.has_access_date ==> file.access_date == 0
    &&& !file.has_last_modified_date ==> file.last_modified_date == 0
    &&& !file.has_windows_attributes ==> file.windows_attributes == 0
    &&& name_fits(file.name)
    &&& decodable(file.name)
}

/// Whether every file is in the form in which a header holds it.
#[verifier::opaque]
pub open spec fn files_canonical(files: Seq<FileModel>) -> bool {
    forall|i: int| 0 <= i < files.len() ==> file_canonical(#[trigger] files[i])
}

/// The three flag sections of a files-info section.
pub open spec fn flag_sections_bytes(columns: FileColumns) -> Seq<u8> {
    bits_section_bytes(K_EMPTY_STREAM, columns.empty_stream) + bits_section_bytes(
        K_EMPTY_FILE,
        columns.empty_file,
    ) + bits_section_bytes(K_ANTI, columns.anti)
}

/// The four property sections of a files-info section, and its end tag.
pub open spec fn property_sections_bytes(columns: FileColumns) -> Seq<u8> {
    property_bytes(K_C_TIME, columns.creation.0, columns.creation.1, 8) + property_bytes(
        K_A_TIME,
        columns.access.0,
        columns.access.1,
        8,
    ) + property_bytes(K_M_TIME, columns.modified.0, columns.modified.1, 8) + property_bytes(
        K_WIN_ATTRIBUTES,
        columns.attributes.0,
        columns.attributes.1,
        4,
    ) + seq![K_END]
}

/// The sections of a files-info section behind the number of files.
pub open spec fn columns_bytes(columns: FileColumns) -> Seq<u8> {
    flag_sections_bytes(columns) + (names_section_bytes(columns.names) + property_sections_bytes(
        columns,
    ))
}

/// The files-info section of a list of files.
pub open spec fn files_section_bytes(files: Seq<FileModel>) -> Seq<u8> {
    seq![K_FILES_INFO] + (encoded_u64(files.len() as u64) + columns_bytes(columns_of(files)))
}

/// Whether a name is some text in UTF-16.
pub open spec fn decodable(name: Seq<u16>) -> bool {
    exists|text: Seq<char>| utf16_text(text) == name
}

/// Whether every name is some text in UTF-16.
#[verifier::opaque]
pub open spec fn names_decodable(names: Seq<Seq<u16>>) -> bool {
    forall|i: int| 0 <= i < names.len() ==> decodable(#[trigger] names[i])
}

/// A files-info section: the number of files and the sections in their order,
/// each of the flag and property sections left out or not. With the files
/// comes the number of bytes taken.
pub open spec fn parsed_files_info(bytes: Seq<u8>) -> Option<(Seq<FileModel>, nat)> {
    if !tag_at(bytes, 0, K_FILES_INFO) {
        None
    } else {
        match decoded_u64(after(bytes, 1)) {
            None => None,
            Some((count, a)) => parsed_columns(bytes, 1 + a, count as nat),
        }
    }
}

/// The sections of a files-info section for `count` files, from position `at`
/// to the end tag.
pub open spec fn parsed_columns(bytes: Seq<u8>, at: nat, count: nat) -> Option<
    (Seq<FileModel>, nat),
> {
    match parsed_bits_section(bytes, at, K_EMPTY_STREAM, count) {
        None => None,
        Some((empty_stream, at1)) => match parsed_bits_section(
            bytes,
            at1,
            K_EMPTY_FILE,
            count_set(empty_stream),
        ) {
            None => None,
            Some((empty_file, at2)) => match parsed_bits_section(
                bytes,
                at2,
                K_ANTI,
                count_set(empty_stream),
            ) {
                None => None,
                Some((anti, at3)) => match parsed_names(bytes, at3, count) {
                    None => None,
                    Some((names, at4)) => if !names_decodable(names) {
                        None
                    } else {
                        parsed_properties(bytes, at4, count, names, empty_stream, empty_file, anti)
                    },
                },
            },
        }
    }
}

/// The property sections of a files-info section, from position `at` to the
/// end tag.
pub open spec fn parsed_properties(
    bytes: Seq<u8>,
    at: nat,
    count: nat,
    names: Seq<Seq<u16>>,
    empty_stream: Seq<bool>,
    empty_file: Seq<bool>,
    anti: Seq<bool>,
) -> Option<(Seq<FileModel>, nat)> {
    match parsed_property(bytes, at, K_C_TIME, count, 8) {
        None => None,
        Some((creation, at5)) => match parsed_property(bytes, at5, K_A_TIME, count, 8) {
            None => None,
            Some((access, at6)) => match parsed_property(bytes, at6, K_M_TIME, count, 8) {
                None => None,
                Some((modified, at7)) => match parsed_property(
                    bytes,
                    at7,
                    K_WIN_ATTRIBUTES,
                    count,
                    4,
                ) {
                    None => None,
                    Some((attributes, at8)) => if tag_at(bytes, at8, K_END) {
                        Some(
                            (
                                files_from(
                                    FileColumns {
                                        names,
                                        empty_stream,
                                        empty_file,
                                        anti,
                                        creation,
                                        access,
                                        modified,
                                        attributes,
                                    },
                                ),
                                at8 + 1,
                            ),
                        )
                    } else {
                        None
                    },
                },
            },
        }
    }
}

/// Spreading the selected items over the flags gives the items back where
/// the flag is set, and `absent` elsewhere.
pub proof fn lemma_spread_of_selected<T>(flags: Seq<bool>, values: Seq<T>, absent: T)
    requires
        flags.len() == values.len(),
    ensures
        spread(flags, selected(flags, values), absent) == Seq::new(
            flags.len(),
            |i: int|
                if flags[i] {
                    values[i]
                } else {
                    absent
                },
        ),
    decreases flags.len(),
{
    let filled = Seq::new(
        flags.len(),
        |i: int|
            if flags[i] {
                values[i]
            } else {
                absent
            },
    );
    if flags.len() == 0 {
        assert(filled =~= Seq::<T>::empty());
    } else {
        let front = flags.drop_last();
        lemma_spread_of_selected(front, values.drop_last(), absent);
        let chosen = selected(front, values.drop_last());
        if flags.last() {
            assert(chosen.push(values.last()).drop_last() =~= chosen);
        }
        assert(spread(flags, selected(flags, values), absent) =~= filled);
    }
}

/// Canonical files are the files that their columns describe.
#[verifier::rlimit(50)]
pub proof fn lemma_files_from_columns(files: Seq<FileModel>)
    requires
        files_canonical(files),
    ensures
        files_from(columns_of(files)) == files,
        columns_of(files).empty_file.len() == count_set(columns_of(files).empty_stream),
        columns_of(files).anti.len() == count_set(columns_of(files).empty_stream),
{
    reveal(files_canonical);
    let columns = columns_of(files);
    let not_directory = Seq::new(files.len(), |i: int| !files[i].is_directory);
    let is_anti = Seq::new(files.len(), |i: int| files[i].is_anti_item);
    lemma_spread_of_selected(columns.empty_stream, not_directory, false);
    lemma_spread_of_selected(columns.empty_stream, is_anti, false);
    lemma_selected_len(columns.empty_stream, not_directory);
    lemma_selected_len(columns.empty_stream, is_anti);
    assert forall|i: int| 0 <= i < files.len() implies file_from(columns, i) == files[i] by {
        assert(file_canonical(files[i]));
    }
    assert(files_from(columns) =~= files);
}

/// The first byte of a section and what follows it is the section's tag, or
/// where the section is left out, the first byte of what follows.
pub proof fn lemma_section_start(section: Seq<u8>, tail: Seq<u8>, nid: u8)
    requires
        section.len() > 0 ==> section[0] == nid,
        tail.len() > 0,
    ensures
        (section + tail).len() > 0,
        (section + tail)[0] == nid || (section + tail)[0] == tail[0],
{
    if section.len() == 0 {
        assert(section + tail =~= tail);
    }
}

/// Whether the columns have one entry for each of `count` files, the flags of
/// the files without a stream one for each of those, names without a zero
/// unit that are texts, properties that fit their width, and zero for every
/// property that a file does not have.
pub open spec fn columns_fit(columns: FileColumns, count: nat) -> bool {
    &&& count <= usize::MAX
    &&& columns.names.len() == count
    &&& names_fit(columns.names)
    &&& names_decodable(columns.names)
    &&& columns.empty_stream.len() == count
    &&& columns.empty_file.len() == count_set(columns.empty_stream)
    &&& columns.anti.len() == count_set(columns.empty_stream)
    &&& property_fits(columns.creation, count, 8)
    &&& property_fits(columns.access, count, 8)
    &&& property_fits(columns.modified, count, 8)
    &&& property_fits(columns.attributes, count, 4)
}

/// Whether a property column has a flag and a value for each of `count`
/// files, each value fitting `width` bytes and zero where the flag is unset.
pub open spec fn property_fits(property: (Seq<bool>, Seq<u64>), count: nat, width: nat) -> bool {
    &&& property.0.len() == count
    &&& property.1.len() == count
    &&& forall|i: int| 0 <= i < count ==> (#[trigger] property.1[i]) < pow256(width)
    &&& forall|i: int| 0 <= i < count && !property.0[i] ==> property.1[i] == 0
}

/// The columns of canonical files fit.
#[verifier::rlimit(50)]
pub proof fn lemma_columns_fit(files: Seq<FileModel>)
    requires
        files_canonical(files),
        files.len() <= usize::MAX,
    ensures
        columns_fit(columns_of(files), files.len()),
{
    let columns = columns_of(files);
    let count = files.len();
    lemma_files_from_columns(files);
    lemma_pow256_values();
    reveal(files_canonical);
    assert(names_fit(columns.names) && names_decodable(columns.names)) by {
        reveal(names_fit);
        reveal(names_decodable);
        assert forall|i: int| 0 <= i < columns.names.len() implies name_fits(
            #[trigger] columns.names[i],
        ) && decodable(columns.names[i]) by {
            assert(file_canonical(files[i]));
        }
    }
    assert(property_fits(columns.creation, count, 8)) by {
        assert forall|i: int| 0 <= i < count && !columns.creation.0[i] implies columns.creation.1[i]
            == 0 by {
            assert(file_canonical(files[i]));
        }
    }
    assert(property_fits(columns.access, count, 8)) by {
        assert forall|i: int| 0 <= i < count && !columns.access.0[i] implies columns.access.1[i]
            == 0 by {
            assert(file_canonical(files[i]));
        }
    }
    assert(property_fits(columns.modified, count, 8)) by {
        assert forall|i: int| 0 <= i < count && !columns.modified.0[i] implies columns.modified.1[i]
            == 0 by {
            assert(file_canonical(files[i]));
        }
    }
    assert(property_fits(columns.attributes, count, 4)) by {
        assert forall|i: int| 0 <= i < count && !columns.attributes.0[i] implies columns.attributes.1[i]
            == 0 by {
            assert(file_canonical(files[i]));
        }
    }
}

/// Reading the property sections that the writer makes gives the properties
/// back, and with them the files.
#[verifier::rlimit(50)]
pub proof fn lemma_parsed_properties(
    columns: FileColumns,
    count: nat,
    bytes: Seq<u8>,
    at: nat,
    rest: Seq<u8>,
)
    requires
        count <= usize::MAX,
        property_fits(columns.creation, count, 8),
        property_fits(columns.access, count, 8),
        property_fits(columns.modified, count, 8),
        property_fits(columns.attributes, count, 4),
        at <= bytes.len() <= u64::MAX,
        after(bytes, at) == property_sections_bytes(columns) + rest,
    ensures
        parsed_properties(
            bytes,
            at,
            count,
            columns.names,
            columns.empty_stream,
            columns.empty_file,
            columns.anti,
        ) == Some((files_from(columns), at + property_sections_bytes(columns).len())),
        at + property_sections_bytes(columns).len() <= bytes.len(),
{
    let x6 = property_bytes(K_C_TIME, columns.creation.0, columns.creation.1, 8);
    let x7 = property_bytes(K_A_TIME, columns.access.0, columns.access.1, 8);
    let x8 = property_bytes(K_M_TIME, columns.modified.0, columns.modified.1, 8);
    let x9 = property_bytes(K_WIN_ATTRIBUTES, columns.attributes.0, columns.attributes.1, 4);
    let x10 = seq![K_END];
    let t10 = x10 + rest;
    let t9 = x9 + t10;
    let t8 = x8 + t9;
    let t7 = x7 + t8;
    assert(property_sections_bytes(columns) + rest == x6 + t7) by {
        lemma_assoc(x6 + x7 + x8 + x9, x10, rest);
        lemma_assoc(x6 + x7 + x8, x9, t10);
        lemma_assoc(x6 + x7, x8, t9);
        lemma_assoc(x6, x7, t8);
    }
    assert(t10[0] == K_END);
    lemma_section_start(x9, t10, K_WIN_ATTRIBUTES);
    lemma_section_start(x8, t9, K_M_TIME);
    lemma_section_start(x7, t8, K_A_TIME);
    lemma_parsed_property(K_C_TIME, columns.creation.0, columns.creation.1, 8, bytes, at, t7);
    let at5 = at + x6.len();
    lemma_parsed_property(K_A_TIME, columns.access.0, columns.access.1, 8, bytes, at5, t8);
    let at6 = at5 + x7.len();
    lemma_parsed_property(K_M_TIME, columns.modified.0, columns.modified.1, 8, bytes, at6, t9);
    let at7 = at6 + x8.len();
    lemma_parsed_property(
        K_WIN_ATTRIBUTES,
        columns.attributes.0,
        columns.attributes.1,
        4,
        bytes,
        at7,
        t10,
    );
    let at8 = at7 + x9.len();
    lemma_tag(bytes, at8, K_END, rest);
    assert(property_sections_bytes(columns).len() == x6.len() + x7.len() + x8.len() + x9.len()
        + 1);
    assert(columns == (FileColumns {
        names: columns.names,
        empty_stream: columns.empty_stream,
        empty_file: columns.empty_file,
        anti: columns.anti,
        creation: columns.creation,
        access: columns.access,
        modified: columns.modified,
        attributes: columns.attributes,
    }));
}

/// Reading the sections that the writer makes of columns that fit gives the
/// files that the columns describe.
#[verifier::rlimit(50)]
pub proof fn lemma_parsed_columns(
    columns: FileColumns,
    count: nat,
    bytes: Seq<u8>,
    at: nat,
    rest: Seq<u8>,
)
    requires
        columns_fit(columns, count),
        at <= bytes.len() <= u64::MAX,
        after(bytes, at) == columns_bytes(columns) + rest,
    ensures
        parsed_columns(bytes, at, count) == Some(
            (files_from(columns), at + columns_bytes(columns).len()),
        ),
        at + columns_bytes(columns).len() <= bytes.len(),
{
    let x2 = bits_section_bytes(K_EMPTY_STREAM, columns.empty_stream);
    let x3 = bits_section_bytes(K_EMPTY_FILE, columns.empty_file);
    let x4 = bits_section_bytes(K_ANTI, columns.anti);
    let x5 = names_section_bytes(columns.names);
    let tail = property_sections_bytes(columns) + rest;
    let t5 = x5 + tail;
    let t4 = x4 + t5;
    let t3 = x3 + t4;
    assert(columns_bytes(columns) + rest == x2 + t3) by {
        lemma_assoc(x5, property_sections_bytes(columns), rest);
        lemma_assoc(flag_sections_bytes(columns), x5 + property_sections_bytes(columns), rest);
        lemma_assoc(x2 + x3, x4, t5);
        lemma_assoc(x2, x3, t4);
    }
    assert(t5[0] == K_NAME);
    lemma_section_start(x4, t5, K_ANTI);
    lemma_section_start(x3, t4, K_EMPTY_FILE);
    lemma_count_set_bound(columns.empty_stream);
    lemma_parsed_bits_section(K_EMPTY_STREAM, columns.empty_stream, bytes, at, t3);
    let at1 = at + x2.len();
    lemma_parsed_bits_section(K_EMPTY_FILE, columns.empty_file, bytes, at1, t4);
    let at2 = at1 + x3.len();
    lemma_parsed_bits_section(K_ANTI, columns.anti, bytes, at2, t5);
    let at3 = at2 + x4.len();
    lemma_parsed_names(columns.names, bytes, at3, tail);
    let at4 = at3 + x5.len();
    lemma_parsed_properties(columns, count, bytes, at4, rest);
    assert(columns_bytes(columns).len() == x2.len() + x3.len() + x4.len() + x5.len()
        + property_sections_bytes(columns).len());
}

/// Reading the files-info section of canonical files gives the files back.
#[verifier::rlimit(50)]
pub proof fn lemma_parsed_files_info(files: Seq<FileModel>, rest: Seq<u8>)
    requires
        files_canonical(files),
        files.len() <= usize::MAX,
        (files_section_bytes(files) + rest).len() <= u64::MAX,
    ensures
        parsed_files_info(files_section_bytes(files) + rest) == Some(
            (files, files_section_bytes(files).len()),
        ),
{
    let columns = columns_of(files);
    let count = files.len();
    let x1 = encoded_u64(count as u64);
    let body = columns_bytes(columns);
    let bytes = files_section_bytes(files) + rest;
    lemma_assoc(seq![K_FILES_INFO], x1 + body, rest);
    lemma_assoc(x1, body, rest);
    assert(after(bytes, 0) =~= bytes);
    lemma_tag(bytes, 0, K_FILES_INFO, x1 + (body + rest));
    lemma_decode_encode(count as u64, body + rest);
    lemma_after(bytes, 1, x1, body + rest);
    lemma_columns_fit(files);
    lemma_files_from_columns(files);
    lemma_parsed_columns(columns, count, bytes, 1 + x1.len(), rest);
    assert(files_section_bytes(files).len() == 1 + x1.len() + body.len());
}

/// Calls `String::from_utf16`. Trusted: the call gives a string where the code
/// units are UTF-16, and that string then encodes to these units again; it
/// gives none where the units are no text's encoding.
#[verifier::external_body]
pub(crate) fn string_from_utf16(units: &Vec<u16>) -> (text: Option<String>)
    ensures
        match text {
            Some(text) => utf16_text(text@) == units@,
            None => forall|any: Seq<char>| utf16_text(any) != units@,
        },
{
    String::from_utf16(units).ok()
}

/// A file entry as a header describes it.
pub open spec fn file_model(entry: ArchiveEntry) -> FileModel {
    FileModel {
        name: utf16_text(entry.name@),
        has_stream: entry.has_stream,
        is_directory: entry.is_directory,
        is_anti_item: entry.is_anti_item,
        has_creation_date: entry.has_creation_date,
        creation_date: entry.creation_date,
        has_access_date: entry.has_access_date,
        access_date: entry.access_date,
        has_last_modified_date: entry.has_last_modified_date,
        last_modified_date: entry.last_modified_date,
        has_windows_attributes: entry.has_windows_attributes,
        windows_attributes: entry.windows_attributes,
    }
}

/// File entries as a header describes them.
pub open spec fn models_of(entries: Seq<ArchiveEntry>) -> Seq<FileModel> {
    Seq::new(entries.len(), |i: int| file_model(entries[i]))
}

/// Whether an entry has neither size nor checksums yet.
pub open spec fn entry_blank(entry: ArchiveEntry) -> bool {
    &&& entry.size == 0
    &&& entry.crc == 0
    &&& !entry.has_crc
    &&& entry.compressed_size == 0
    &&& entry.compressed_crc == 0
}

/// The file entries that the columns describe, or `None` where a name is not
/// UTF-16.
#[verifier::rlimit(50)]
pub fn assemble(
    names: &Vec<Vec<u16>>,
    empty_stream: &Vec<bool>,
    empty_file: &Vec<bool>,
    anti: &Vec<bool>,
    creation: (&Vec<bool>, &Vec<u64>),
    access: (&Vec<bool>, &Vec<u64>),
    modified: (&Vec<bool>, &Vec<u64>),
    attributes: (&Vec<bool>, &Vec<u64>),
) -> (found: Option<Vec<ArchiveEntry>>)
    requires
        empty_stream@.len() == names@.len(),
        empty_file@.len() == count_set(empty_stream@),
        anti@.len() == count_set(empty_stream@),
        creation.0@.len() == names@.len(),
        creation.1@.len() == names@.len(),
        access.0@.len() == names@.len(),
        access.1@.len() == names@.len(),
        modified.0@.len() == names@.len(),
        modified.1@.len() == names@.len(),
        attributes.0@.len() == names@.len(),
        attributes.1@.len() == names@.len(),
    ensures
        found is Some <==> names_decodable(names_view(names@)),
        found is Some ==> models_of(found->0@) == files_from(
            (FileColumns {
                names: names_view(names@),
                empty_stream: empty_stream@,
                empty_file: empty_file@,
                anti: anti@,
                creation: (creation.0@, creation.1@),
                access: (access.0@, access.1@),
                modified: (modified.0@, modified.1@),
                attributes: (attributes.0@, attributes.1@),
            }),
        ),
        found is Some ==> forall|i: int|
            0 <= i < found->0@.len() ==> entry_blank(#[trigger] found->0@[i]),
{
    let ghost columns = FileColumns {
        names: names_view(names@),
        empty_stream: empty_stream@,
        empty_file: empty_file@,
        anti: anti@,
        creation: (creation.0@, creation.1@),
        access: (access.0@, access.1@),
        modified: (modified.0@, modified.1@),
        attributes: (attributes.0@, attributes.1@),
    };
    let empty_file_all = spread_values(empty_stream, empty_file, false);
    let anti_all = spread_values(empty_stream, anti, false);
    proof {
        lemma_selected_spread(empty_stream@, empty_file@, false);
        lemma_selected_spread(empty_stream@, anti@, false);
    }
    let count: usize = names.len();
    let mut entries: Vec<ArchiveEntry> = Vec::new();
    let mut i: usize = 0;
    while i < count
        invariant
            i <= count == names@.len(),
            columns == (FileColumns {
                names: names_view(names@),
                empty_stream: empty_stream@,
                empty_file: empty_file@,
                anti: anti@,
                creation: (creation.0@, creation.1@),
                access: (access.0@, access.1@),
                modified: (modified.0@, modified.1@),
                attributes: (attributes.0@, attributes.1@),
            }),
            empty_file_all@ == spread(empty_stream@, empty_file@, false),
            anti_all@ == spread(empty_stream@, anti@, false),
            empty_file_all@.len() == count,
            anti_all@.len() == count,
            empty_stream@.len() == count,
            creation.0@.len() == count,
            creation.1@.len() == count,
            access.0@.len() == count,
            access.1@.len() == count,
            modified.0@.len() == count,
            modified.1@.len() == count,
            attributes.0@.len() == count,
            attributes.1@.len() == count,
            entries@.len() == i,
            forall|j: int| 0 <= j < i ==> file_model(#[trigger] entries@[j]) == file_from(columns, j),
            forall|j: int| 0 <= j < i ==> entry_blank(#[trigger] entries@[j]),
            forall|j: int| 0 <= j < i ==> decodable(#[trigger] names_view(names@)[j]),
        decreases count - i,
    {
        let name = match string_from_utf16(&names[i]) {
            Some(name) => name,
            None => {
                proof {
                    reveal(names_decodable);
                    assert(names_view(names@)[i as int] == names@[i as int]@);
                    assert(!names_decodable(names_view(names@)));
                }
                return None;
            },
        };
        assert(names_view(names@)[i as int] == names@[i as int]@);
        assert(decodable(names@[i as int]@)) by {
            assert(utf16_text(name@) == names@[i as int]@);
        }
        let streamless: bool = empty_stream[i];
        let entry = ArchiveEntry {
            name,
            has_stream: !streamless,
            is_directory: streamless && !empty_file_all[i],
            is_anti_item: streamless && anti_all[i],
            has_creation_date: creation.0[i],
            has_last_modified_date: modified.0[i],
            has_access_date: access.0[i],
            creation_date: creation.1[i],
            last_modified_date: modified.1[i],
            access_date: access.1[i],
            has_windows_attributes: attributes.0[i],
            windows_attributes: attributes.1[i] as u32,
            has_crc: false,
            crc: 0,
            compressed_crc: 0,
            size: 0,
            compressed_size: 0,
        };
        assert(file_model(entry) == file_from(columns, i as int));
        entries.push(entry);
        i = i + 1;
    }
    proof {
        let all = names_view(names@);
        assert(all.len() == count);
        assert(names_decodable(all)) by {
            reveal(names_decodable);
        }
        assert(models_of(entries@) =~= files_from(columns));
    }
    Some(entries)
}

/// A files-info section at the start of `section`.
#[verifier::rlimit(50)]
pub fn read_files_info(section: &[u8]) -> (found: Option<(Vec<ArchiveEntry>, usize)>)
    ensures
        match parsed_files_info(section@) {
            Some((files, taken)) => {
                &&& found is Some
                &&& models_of((found->0).0@) == files
                &&& (found->0).1 == taken
                &&& taken <= section@.len()
                &&& forall|i: int|
                    0 <= i < (found->0).0@.len() ==> entry_blank(#[trigger] (found->0).0@[i])
            },
            None => found is None,
        },
{
    if !has_tag(section, 0, K_FILES_INFO) {
        return None;
    }
    let (count, at) = match read_number(section, 1) {
        Some(found) => found,
        None => {
            return None;
        },
    };
    if count > usize::MAX as u64 {
        proof {
            let a = (decoded_u64(after(section@, 1))->0).1;
            assert(parsed_bits_section(section@, 1 + a, K_EMPTY_STREAM, count as nat) is None
                || parsed_names(
                section@,
                (parsed_bits_section(
                    section@,
                    (parsed_bits_section(
                        section@,
                        (parsed_bits_section(section@, 1 + a, K_EMPTY_STREAM, count as nat)->0).1,
                        K_EMPTY_FILE,
                        count_set(
                            (parsed_bits_section(section@, 1 + a, K_EMPTY_STREAM, count as nat)->0).0,
                        ),
                    )->0).1,
                    K_ANTI,
                    count_set(
                        (parsed_bits_section(section@, 1 + a, K_EMPTY_STREAM, count as nat)->0).0,
                    ),
                )->0).1,
                count as nat,
            ) is None) by {
                lemma_too_many_names(section@, count as nat);
            }
        }
        return None;
    }
    read_columns(section, at, count)
}

/// No byte string holds more names than it has bytes.
pub proof fn lemma_too_many_names(bytes: Seq<u8>, count: nat)
    requires
        count > bytes.len(),
    ensures
        forall|at: nat| parsed_names(bytes, at, count) is None,
{
    assert forall|at: nat| parsed_names(bytes, at, count) is None by {
        if tag_at(bytes, at, K_NAME) {
            match decoded_u64(after(bytes, at + 1)) {
                Some((size, a)) => {
                    let list_at = after(bytes, at + 1 + a + 1);
                    if parsed_name_list(list_at, count) is Some {
                        lemma_parsed_name_list_shape(list_at, count);
                    }
                },
                None => {},
            }
        }
    }
}

/// The sections of a files-info section for `count` files, from position `at`
/// to the end tag.
#[verifier::rlimit(50)]
pub fn read_columns(section: &[u8], at: usize, count: u64) -> (found: Option<
    (Vec<ArchiveEntry>, usize),
>)
    requires
        at <= section@.len(),
        count <= usize::MAX,
    ensures
        match parsed_columns(section@, at as nat, count as nat) {
            Some((files, next)) => {
                &&& found is Some
                &&& models_of((found->0).0@) == files
                &&& (found->0).1 == next
                &&& next <= section@.len()
                &&& forall|i: int|
                    0 <= i < (found->0).0@.len() ==> entry_blank(#[trigger] (found->0).0@[i])
            },
            None => found is None,
        },
{
    let (empty_stream, at1) = match read_bits_section(section, at, K_EMPTY_STREAM, count) {
        Some(found) => found,
        None => {
            return None;
        },
    };
    let streamless = count_flags(&empty_stream);
    let (empty_file, at2) = match read_bits_section(
        section,
        at1,
        K_EMPTY_FILE,
        streamless as u64,
    ) {
        Some(found) => found,
        None => {
            return None;
        },
    };
    let (anti, at3) = match read_bits_section(section, at2, K_ANTI, streamless as u64) {
        Some(found) => found,
        None => {
            return None;
        },
    };
    let (names, at4) = match read_names(section, at3, count) {
        Some(found) => found,
        None => {
            return None;
        },
    };
    let (creation_flags, creation, at5) = match read_property(section, at4, K_C_TIME, count, 8) {
        Some(found) => found,
        None => {
            return None;
        },
    };
    let (access_flags, access, at6) = match read_property(section, at5, K_A_TIME, count, 8) {
        Some(found) => found,
        None => {
            return None;
        },
    };
    let (modified_flags, modified, at7) = match read_property(section, at6, K_M_TIME, count, 8) {
        Some(found) => found,
        None => {
            return None;
        },
    };
    let (attribute_flags, attributes, at8) = match read_property(
        section,
        at7,
        K_WIN_ATTRIBUTES,
        count,
        4,
    ) {
        Some(found) => found,
        None => {
            return None;
        },
    };
    if !has_tag(section, at8, K_END) {
        return None;
    }
    match assemble(
        &names,
        &empty_stream,
        &empty_file,
        &anti,
        (&creation_flags, &creation),
        (&access_flags, &access),
        (&modified_flags, &modified),
        (&attribute_flags, &attributes),
    ) {
        Some(entries) => Some((entries, at8 + 1)),
        None => None,
    }
}

/// What is read as a property section has a flag and a value for each item,
/// the value zero where the flag is unset.
pub proof fn lemma_parsed_property_shape(bytes: Seq<u8>, at: nat, nid: u8, count: nat, width: nat)
    requires
        parsed_property(bytes, at, nid, count, width) is Some,
    ensures
        ({
            let property = (parsed_property(bytes, at, nid, count, width)->0).0;
            &&& property.0.len() == count
            &&& property.1.len() == count
            &&& forall|i: int| 0 <= i < count && !property.0[i] ==> property.1[i] == 0
        }),
{
    if tag_at(bytes, at, nid) {
        let a = (decoded_u64(after(bytes, at + 1))->0).1;
        let presence = parsed_presence(after(bytes, at + 1 + a), count)->0;
        let values_at = after(bytes, at + 1 + a + presence.1 + 1);
        lemma_parsed_fixed_len(values_at, count_set(presence.0), width);
        let values = (parsed_fixed(values_at, count_set(presence.0), width)->0).0;
        lemma_selected_spread(presence.0, values, 0u64);
    }
}

/// The files that are read from columns are canonical.
#[verifier::rlimit(50)]
pub proof fn lemma_parsed_columns_shape(bytes: Seq<u8>, at: nat, count: nat)
    requires
        parsed_columns(bytes, at, count) is Some,
    ensures
        files_canonical((parsed_columns(bytes, at, count)->0).0),
        (parsed_columns(bytes, at, count)->0).0.len() == count,
        count <= bytes.len(),
{
    let empty_stream = parsed_bits_section(bytes, at, K_EMPTY_STREAM, count)->0;
    let streamless = count_set(empty_stream.0);
    let empty_file = parsed_bits_section(bytes, empty_stream.1, K_EMPTY_FILE, streamless)->0;
    let anti = parsed_bits_section(bytes, empty_file.1, K_ANTI, streamless)->0;
    let names = parsed_names(bytes, anti.1, count)->0;
    let creation = parsed_property(bytes, names.1, K_C_TIME, count, 8)->0;
    let access = parsed_property(bytes, creation.1, K_A_TIME, count, 8)->0;
    let modified = parsed_property(bytes, access.1, K_M_TIME, count, 8)->0;
    let attributes = parsed_property(bytes, modified.1, K_WIN_ATTRIBUTES, count, 4)->0;
    let columns = FileColumns {
        names: names.0,
        empty_stream: empty_stream.0,
        empty_file: empty_file.0,
        anti: anti.0,
        creation: creation.0,
        access: access.0,
        modified: modified.0,
        attributes: attributes.0,
    };
    let files = files_from(columns);
    assert(files == (parsed_columns(bytes, at, count)->0).0);
    lemma_parsed_property_shape(bytes, names.1, K_C_TIME, count, 8);
    lemma_parsed_property_shape(bytes, creation.1, K_A_TIME, count, 8);
    lemma_parsed_property_shape(bytes, access.1, K_M_TIME, count, 8);
    lemma_parsed_property_shape(bytes, modified.1, K_WIN_ATTRIBUTES, count, 4);
    let list_at = after(
        bytes,
        anti.1 + 1 + (decoded_u64(after(bytes, anti.1 + 1))->0).1 + 1,
    );
    lemma_parsed_name_list_shape(list_at, count);
    assert(names.0.len() == count);
    reveal(files_canonical);
    reveal(names_fit);
    reveal(names_decodable);
    assert forall|i: int| 0 <= i < files.len() implies file_canonical(#[trigger] files[i]) by {
        assert(files[i] == file_from(columns, i));
        assert(name_fits(names.0[i]));
        assert(decodable(names.0[i]));
    }
}

/// The files that are read from a files-info section are canonical.
pub proof fn lemma_parsed_files_info_shape(bytes: Seq<u8>)
    requires
        parsed_files_info(bytes) is Some,
    ensures
        files_canonical((parsed_files_info(bytes)->0).0),
        (parsed_files_info(bytes)->0).0.len() <= bytes.len(),
{
    let count = decoded_u64(after(bytes, 1))->0;
    lemma_parsed_columns_shape(bytes, 1 + count.1, count.0 as nat);
}

} // verus!
