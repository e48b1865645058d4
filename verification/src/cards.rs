//! Display cards: which device nodes are cards, which cards can present a
//! display, and in what order they are offered.

use crate::message::Resource;
use crate::registry::{DrmDevice, DrmDeviceView, DrmRegistry};
use crate::{listing, text};
use vstd::prelude::*;

verus! {

/// The value of a string of decimal digits.
pub open spec fn digits_value(digits: Seq<char>) -> nat
    decreases digits.len(),
{
    if digits.len() == 0 {
        0
    } else {
        digits_value(digits.drop_last()) * 10 + (digits.last() as nat - 48) as nat
    }
}

/// Is every character a decimal digit?
pub open spec fn all_digits(text: Seq<char>) -> bool {
    forall|i: int| 0 <= i < text.len() ==> '0' <= #[trigger] text[i] <= '9'
}

/// The number that a text spells, if it fits in a byte: digits, possibly
/// behind a plus sign.
pub open spec fn byte_spelled(text: Seq<char>) -> Option<u8> {
    let digits = if text.len() > 0 && text[0] == '+' {
        text.drop_first()
    } else {
        text
    };
    if digits.len() > 0 && all_digits(digits) && digits_value(digits) <= 255 {
        Some(digits_value(digits) as u8)
    } else {
        None
    }
}

/// The index of the card whose device node has the given name: the number
/// behind `card`.
pub open spec fn card_named(name: Seq<char>) -> Option<u8> {
    if "card"@.is_prefix_of(name) {
        byte_spelled(name.skip(4))
    } else {
        None
    }
}

proof fn digits_only_grow(digits: Seq<char>, n: int)
    requires
        all_digits(digits),
        0 <= n <= digits.len(),
    ensures
        digits_value(digits.take(n)) <= digits_value(digits),
    decreases digits.len(),
{
    if n < digits.len() {
        let shorter = digits.drop_last();
        assert(all_digits(shorter));
        digits_only_grow(shorter, n);
        assert(shorter.take(n) =~= digits.take(n));
    } else {
        assert(digits.take(n) =~= digits);
    }
}

/// The number that the characters from position `from` on spell, if they
/// are digits and it fits in a byte.
fn parse_digits(name: &str, from: usize) -> (value: Option<u8>)
    requires
        from <= name@.len(),
    ensures
        ({
            let digits = name@.skip(from as int);
            value == (if digits.len() > 0 && all_digits(digits) && digits_value(digits) <= 255 {
                Some(digits_value(digits) as u8)
            } else {
                None
            })
        }),
{
    let len: usize = name.unicode_len();
    let ghost digits = name@.skip(from as int);
    if len == from {
        return None;
    }
    let mut value: u32 = 0;
    let mut i: usize = from;
    assert(digits.take(0) =~= Seq::<char>::empty());
    while i < len
        invariant
            from <= i <= len,
            len == name@.len(),
            digits == name@.skip(from as int),
            all_digits(digits.take(i - from)),
            value == digits_value(digits.take(i - from)),
            value <= 255,
        decreases len - i,
    {
        let c = name.get_char(i);
        assert(c == digits[i - from]);
        if c < '0' || c > '9' {
            assert(!all_digits(digits));
            return None;
        }
        proof {
            let longer = digits.take(i + 1 - from);
            assert(longer.drop_last() =~= digits.take(i - from));
            assert(longer.last() == c);
            assert forall|j: int| 0 <= j < longer.len() implies '0' <= #[trigger] longer[j]
                <= '9' by {
                if j < i - from {
                    assert(longer[j] == digits.take(i - from)[j]);
                }
            }
        }
        value = value * 10 + (c as u32 - 48);
        if value > 255 {
            proof {
                if all_digits(digits) {
                    digits_only_grow(digits, i + 1 - from);
                }
            }
            return None;
        }
        i = i + 1;
    }
    assert(digits.take(len - from) =~= digits);
    Some(value as u8)
}

/// Parses the card index out of a device node's name (`card0` gives 0).
pub fn card_index(name: &str) -> (index: Option<u8>)
    ensures
        index == card_named(name@),
{
    if !text::starts_with(name, "card") {
        return None;
    }
    proof {
        reveal_strlit("card");
    }
    let len: usize = name.unicode_len();
    if len > 4 && name.get_char(4) == '+' {
        assert(name@.skip(4).drop_first() =~= name@.skip(5));
        parse_digits(name, 5)
    } else {
        parse_digits(name, 4)
    }
}

/// The indices of the cards among some names, in the order of the names.
pub open spec fn indices_named(names: Seq<Seq<char>>) -> Seq<u8>
    decreases names.len(),
{
    if names.len() == 0 {
        Seq::empty()
    } else {
        let earlier = indices_named(names.drop_last());
        match card_named(names.last()) {
            Some(index) => earlier.push(index),
            None => earlier,
        }
    }
}

/// Are the numbers in ascending order?
pub open spec fn ascending(numbers: Seq<u8>) -> bool {
    forall|i: int, j: int| 0 <= i <= j < numbers.len() ==> numbers[i] <= numbers[j]
}

/// Puts a number in its place among numbers in ascending order.
fn insert_sorted(numbers: &mut Vec<u8>, number: u8)
    requires
        ascending(old(numbers)@),
    ensures
        ascending(final(numbers)@),
        final(numbers)@.to_multiset() == old(numbers)@.to_multiset().insert(number),
{
    broadcast use vstd::seq_lib::group_to_multiset_ensures;

    let n: usize = numbers.len();
    let mut at: usize = 0;
    while at < n && numbers[at] <= number
        invariant
            at <= n,
            n == numbers@.len(),
            ascending(numbers@),
            forall|i: int| 0 <= i < at ==> numbers@[i] <= number,
        decreases n - at,
    {
        at = at + 1;
    }
    let ghost before = numbers@;
    numbers.insert(at, number);
    proof {
        let after = numbers@;
        after.to_multiset_ensures();
        assert(after.remove(at as int) =~= before);
        assert(after[at as int] == number);
        assert(after.contains(number));
        assert(after.to_multiset() =~= before.to_multiset().insert(number));
        assert forall|i: int, j: int| 0 <= i <= j < numbers@.len() implies numbers@[i]
            <= numbers@[j] by {
            if i < at && j < at {
                assert(before[i] <= before[j]);
            } else if i > at && j > at {
                assert(before[i - 1] <= before[j - 1]);
            } else if i < at && j > at {
                assert(before[i] <= before[j - 1]);
            } else if i == at && j > at {
                assert(before[at as int] <= before[j - 1]);
            }
        }
    }
}

/// The indices of the cards among the names of the device nodes, lowest
/// first.
pub fn card_indices(names: &Vec<String>) -> (indices: Vec<u8>)
    ensures
        ascending(indices@),
        indices@.to_multiset() == indices_named(listing::texts(names@)).to_multiset(),
{
    broadcast use vstd::seq_lib::group_to_multiset_ensures;

    let mut indices: Vec<u8> = Vec::new();
    let n: usize = names.len();
    let mut i: usize = 0;
    assert(listing::texts(names@).take(0) =~= Seq::<Seq<char>>::empty());
    while i < n
        invariant
            i <= n,
            n == names@.len(),
            ascending(indices@),
            indices@.to_multiset() == indices_named(
                listing::texts(names@).take(i as int),
            ).to_multiset(),
        decreases n - i,
    {
        proof {
            let longer = listing::texts(names@).take(i + 1);
            assert(longer.drop_last() =~= listing::texts(names@).take(i as int));
            assert(longer.last() == names@[i as int]@);
        }
        if let Some(index) = card_index(names[i].as_str()) {
            insert_sorted(&mut indices, index);
            proof {
                let earlier = indices_named(listing::texts(names@).take(i as int));
                earlier.to_multiset_ensures();
                assert(earlier.push(index).to_multiset() =~= earlier.to_multiset().insert(index));
            }
        }
        i = i + 1;
    }
    assert(listing::texts(names@).take(n as int) =~= listing::texts(names@));
    indices
}

/// The names of the card nodes among the names of device nodes, in order.
pub fn card_names(names: &Vec<String>) -> (found: Vec<String>)
    ensures
        listing::is_listing(names@, "card"@, found@),
{
    listing::names_with_prefix(names, "card")
}

/// The path of a card's device node.
pub fn card_path(index: u8) -> (path: String)
    ensures
        path@ == "/dev/dri/card"@ + text::decimal(index as nat),
{
    let number = text::decimal_text(index as u64);
    "/dev/dri/card".to_string().concat(number.as_str())
}

/// What decides the place of a card: its index, whether it has a connector
/// for a display, and whether a display is connected.
#[derive(Debug, Clone, Copy, PartialEq, Eq, Structural)]
pub struct Candidate {
    pub index: u8,
    pub has_connector: bool,
    pub connected: bool,
}

/// Is the candidate at `i` offered before the one at `j`? One with a
/// connected display comes first, then the one with the lower index, then
/// the one that was found first.
pub open spec fn comes_first(candidates: Seq<Candidate>, i: int, j: int) -> bool {
    let a = candidates[i];
    let b = candidates[j];
    if a.connected != b.connected {
        a.connected
    } else if a.index != b.index {
        a.index < b.index
    } else {
        i < j
    }
}

/// Does `order` list the candidates that can present a display, in the
/// order in which they are offered?
pub open spec fn is_display_order(candidates: Seq<Candidate>, order: Seq<usize>) -> bool {
    &&& forall|k: int|
        0 <= k < order.len() ==> (#[trigger] order[k]) < candidates.len()
            && candidates[order[k] as int].has_connector
    &&& forall|i: usize|
        i < candidates.len() && (#[trigger] candidates[i as int]).has_connector ==> order.contains(
            i,
        )
    &&& forall|k: int, m: int|
        0 <= k < m < order.len() ==> comes_first(
            candidates,
            #[trigger] order[k] as int,
            #[trigger] order[m] as int,
        )
}

/// There is only one such order.
pub proof fn display_order_is_unique(candidates: Seq<Candidate>, a: Seq<usize>, b: Seq<usize>)
    requires
        is_display_order(candidates, a),
        is_display_order(candidates, b),
    ensures
        a == b,
{
    orders_agree(candidates, a, b, if a.len() <= b.len() {
        a.len() as int
    } else {
        b.len() as int
    });
    if a.len() < b.len() {
        let i = b[a.len() as int];
        assert(candidates[i as int].has_connector);
        assert(a.contains(i));
        let m = choose|m: int| 0 <= m < a.len() && a[m] == i;
        assert(b[m] == a[m]);
    }
    if b.len() < a.len() {
        let i = a[b.len() as int];
        assert(candidates[i as int].has_connector);
        assert(b.contains(i));
        let m = choose|m: int| 0 <= m < b.len() && b[m] == i;
        assert(b[m] == a[m]);
    }
    assert(a =~= b);
}

proof fn orders_agree(candidates: Seq<Candidate>, a: Seq<usize>, b: Seq<usize>, n: int)
    requires
        is_display_order(candidates, a),
        is_display_order(candidates, b),
        0 <= n <= a.len(),
        n <= b.len(),
    ensures
        forall|k: int| 0 <= k < n ==> a[k] == b[k],
    decreases n,
{
    if n > 0 {
        let k = n - 1;
        orders_agree(candidates, a, b, k);
        assert(candidates[a[k] as int].has_connector);
        assert(candidates[b[k] as int].has_connector);
        assert(b.contains(a[k]));
        assert(a.contains(b[k]));
        let m = choose|m: int| 0 <= m < b.len() && b[m] == a[k];
        let p = choose|p: int| 0 <= p < a.len() && a[p] == b[k];
        if m < k {
            assert(a[m] == b[m]);
        } else if p < k {
            assert(a[p] == b[p]);
        } else if m > k {
            assert(comes_first(candidates, b[k] as int, b[m] as int));
            if p > k {
                assert(comes_first(candidates, a[k] as int, a[p] as int));
            }
        }
    }
}

/// The best card is offered first: where a display is connected to any of
/// the cards that can present one, the first card has a display.
pub proof fn connected_card_is_offered_first(
    candidates: Seq<Candidate>,
    order: Seq<usize>,
    i: usize,
)
    requires
        is_display_order(candidates, order),
        i < candidates.len(),
        candidates[i as int].has_connector,
        candidates[i as int].connected,
    ensures
        order.len() > 0,
        candidates[order[0] as int].connected,
{
    assert(order.contains(i));
    let k = choose|k: int| 0 <= k < order.len() && order[k] == i;
    if k > 0 {
        assert(comes_first(candidates, order[0] as int, order[k] as int));
    }
}

fn is_first(candidates: &Vec<Candidate>, i: usize, j: usize) -> (yes: bool)
    requires
        i < candidates@.len(),
        j < candidates@.len(),
    ensures
        yes == comes_first(candidates@, i as int, j as int),
{
    let a = candidates[i];
    let b = candidates[j];
    if a.connected != b.connected {
        a.connected
    } else if a.index != b.index {
        a.index < b.index
    } else {
        i < j
    }
}

/// The positions of the candidates that can present a display, in the order
/// in which they are offered.
pub fn display_order(candidates: &Vec<Candidate>) -> (order: Vec<usize>)
    ensures
        is_display_order(candidates@, order@),
{
    let mut order: Vec<usize> = Vec::new();
    let n: usize = candidates.len();
    let mut i: usize = 0;
    while i < n
        invariant
            i <= n,
            n == candidates@.len(),
            is_display_order(candidates@.take(i as int), order@),
        decreases n - i,
    {
        let ghost earlier = order@;
        let ghost seen = candidates@.take(i as int);
        let ghost now_seen = candidates@.take(i + 1);
        proof {
            assert forall|k: int| 0 <= k < earlier.len() implies (#[trigger] earlier[k]) < i
                && now_seen[earlier[k] as int] == seen[earlier[k] as int] by {}
        }
        if candidates[i].has_connector {
            let m: usize = order.len();
            let mut at: usize = 0;
            while at < m && is_first(candidates, order[at], i)
                invariant
                    at <= m,
                    m == order@.len(),
                    order@ == earlier,
                    i < n,
                    n == candidates@.len(),
                    forall|k: int| 0 <= k < earlier.len() ==> (#[trigger] earlier[k]) < i,
                    forall|k: int|
                        0 <= k < at ==> comes_first(
                            candidates@,
                            #[trigger] earlier[k] as int,
                            i as int,
                        ),
                decreases m - at,
            {
                at = at + 1;
            }
            order.insert(at, i);
            proof {
                insertion_keeps_order(candidates@, earlier, i, at as int);
            }
        } else {
            proof {
                assert forall|k: usize|
                    k < now_seen.len() && (
                    #[trigger] now_seen[k as int]).has_connector implies earlier.contains(k) by {
                    assert(seen[k as int] == now_seen[k as int]);
                }
                assert forall|k: int, p: int| 0 <= k < p < earlier.len() implies comes_first(
                    now_seen,
                    #[trigger] earlier[k] as int,
                    #[trigger] earlier[p] as int,
                ) by {
                    assert(comes_first(seen, earlier[k] as int, earlier[p] as int));
                }
            }
        }
        i = i + 1;
    }
    assert(candidates@.take(n as int) =~= candidates@);
    order
}

proof fn insertion_keeps_order(
    candidates: Seq<Candidate>,
    order: Seq<usize>,
    i: usize,
    at: int,
)
    requires
        i < candidates.len(),
        is_display_order(candidates.take(i as int), order),
        candidates[i as int].has_connector,
        0 <= at <= order.len(),
        forall|k: int|
            0 <= k < at ==> comes_first(candidates, #[trigger] order[k] as int, i as int),
        at < order.len() ==> !comes_first(candidates, order[at] as int, i as int),
    ensures
        is_display_order(candidates.take(i + 1), order.insert(at, i)),
{
    let seen = candidates.take(i as int);
    let now_seen = candidates.take(i + 1);
    let after = order.insert(at, i);
    assert forall|k: int| 0 <= k < order.len() implies (#[trigger] order[k]) < i
        && now_seen[order[k] as int] == seen[order[k] as int] && candidates[order[k] as int]
        == seen[order[k] as int] by {}
    assert forall|k: int| 0 <= k < after.len() implies (#[trigger] after[k]) < now_seen.len()
        && now_seen[after[k] as int].has_connector by {
        if k < at {
            assert(after[k] == order[k]);
        } else if k > at {
            assert(after[k] == order[k - 1]);
        }
    }
    assert forall|k: usize|
        k < now_seen.len() && (
        #[trigger] now_seen[k as int]).has_connector implies after.contains(k) by {
        if k == i {
            assert(after[at] == i);
        } else {
            assert(seen[k as int] == now_seen[k as int]);
            assert(order.contains(k));
            let m = choose|m: int| 0 <= m < order.len() && order[m] == k;
            if m < at {
                assert(after[m] == k);
            } else {
                assert(after[m + 1] == k);
            }
        }
    }
    assert forall|k: int, m: int| 0 <= k < m < after.len() implies comes_first(
        now_seen,
        #[trigger] after[k] as int,
        #[trigger] after[m] as int,
    ) by {
        let old_k = if k < at { k } else { k - 1 };
        let old_m = if m < at { m } else { m - 1 };
        if k != at && m != at {
            assert(after[k] == order[old_k]);
            assert(after[m] == order[old_m]);
            assert(comes_first(seen, order[old_k] as int, order[old_m] as int));
        } else if m == at {
            assert(after[k] == order[k]);
            assert(comes_first(candidates, order[k] as int, i as int));
        } else {
            assert(after[m] == order[m - 1]);
            if m - 1 > at {
                assert(comes_first(seen, order[at] as int, order[m - 1] as int));
            }
            assert(!comes_first(candidates, order[at] as int, i as int));
        }
    }
}

/// An entry of the system's list of connectors: its name, such as
/// `card0-HDMI-A-1`, and what its status file says, where it can be read.
pub struct SysfsEntry {
    pub name: String,
    pub status: Option<String>,
}

/// Is the entry a connector of the card that can present a display?
/// Writeback connectors only capture.
pub open spec fn is_connector(card: u8, entry: SysfsEntry) -> bool {
    &&& ("card"@ + text::decimal(card as nat) + "-"@).is_prefix_of(entry.name@)
    &&& !text::occurs_in("Writeback"@, entry.name@)
}

/// Does the entry report a connected display?
pub open spec fn reports_display(entry: SysfsEntry) -> bool {
    entry.status matches Some(status) && text::reads(status@, "connected"@)
}

/// What a card has to offer, according to the entries.
pub open spec fn sysfs_candidate(card: u8, entries: Seq<SysfsEntry>) -> Candidate {
    Candidate {
        index: card,
        has_connector: exists|i: int|
            0 <= i < entries.len() && #[trigger] is_connector(card, entries[i]),
        connected: exists|i: int|
            0 <= i < entries.len() && #[trigger] is_connector(card, entries[i])
                && reports_display(entries[i]),
    }
}

/// What each of some cards has to offer.
pub open spec fn sysfs_candidates(cards: Seq<u8>, entries: Seq<SysfsEntry>) -> Seq<Candidate> {
    cards.map_values(|card: u8| sysfs_candidate(card, entries))
}

/// The positions of the entries that are connectors of the card, in order.
pub fn drm_connectors(card: u8, entries: &Vec<SysfsEntry>) -> (found: Vec<usize>)
    ensures
        forall|k: int|
            0 <= k < found@.len() ==> (#[trigger] found@[k]) < entries@.len() && is_connector(
                card,
                entries@[found@[k] as int],
            ),
        forall|k: int, m: int| 0 <= k < m < found@.len() ==> found@[k] < found@[m],
        forall|i: usize|
            i < entries@.len() && #[trigger] is_connector(card, entries@[i as int])
                ==> found@.contains(i),
{
    let number = text::decimal_text(card as u64);
    let prefix = "card".to_string().concat(number.as_str()).concat("-");
    let mut found: Vec<usize> = Vec::new();
    let n: usize = entries.len();
    let mut i: usize = 0;
    while i < n
        invariant
            i <= n,
            n == entries@.len(),
            prefix@ == "card"@ + text::decimal(card as nat) + "-"@,
            forall|k: int|
                0 <= k < found@.len() ==> (#[trigger] found@[k]) < i && is_connector(
                    card,
                    entries@[found@[k] as int],
                ),
            forall|k: int, m: int| 0 <= k < m < found@.len() ==> found@[k] < found@[m],
            forall|j: usize|
                j < i && #[trigger] is_connector(card, entries@[j as int]) ==> found@.contains(j),
        decreases n - i,
    {
        let name = entries[i].name.as_str();
        if text::starts_with(name, prefix.as_str()) && !text::contains_text(name, "Writeback") {
            let ghost earlier = found@;
            found.push(i);
            proof {
                assert(found@[earlier.len() as int] == i);
                assert forall|j: usize|
                    j < i + 1 && #[trigger] is_connector(
                        card,
                        entries@[j as int],
                    ) implies found@.contains(j) by {
                    if j < i {
                        assert(earlier.contains(j));
                        let k = choose|k: int| 0 <= k < earlier.len() && earlier[k] == j;
                        assert(found@[k] == j);
                    }
                }
            }
        }
        i = i + 1;
    }
    found
}

/// Does any of the connectors at the given positions report a connected
/// display?
pub fn is_any_connected(entries: &Vec<SysfsEntry>, connectors: &Vec<usize>) -> (yes: bool)
    requires
        forall|k: int| 0 <= k < connectors@.len() ==> #[trigger] connectors@[k] < entries@.len(),
    ensures
        yes == exists|k: int|
            0 <= k < connectors@.len() && reports_display(
                entries@[#[trigger] connectors@[k] as int],
            ),
{
    let n: usize = connectors.len();
    let mut k: usize = 0;
    while k < n
        invariant
            k <= n,
            n == connectors@.len(),
            forall|j: int|
                0 <= j < connectors@.len() ==> #[trigger] connectors@[j] < entries@.len(),
            forall|j: int|
                0 <= j < k ==> !reports_display(entries@[#[trigger] connectors@[j] as int]),
        decreases n - k,
    {
        if let Some(status) = &entries[connectors[k]].status {
            if text::reads_word(status.as_str(), "connected") {
                assert(reports_display(entries@[connectors@[k as int] as int]));
                return true;
            }
        }
        k = k + 1;
    }
    false
}

/// The cards that can present a display, in the order in which they are
/// offered: one with a connected display first, then the lowest index.
pub fn drm_display_cards(cards: &Vec<u8>, entries: &Vec<SysfsEntry>) -> (offered: Vec<u8>)
    ensures
        exists|order: Seq<usize>|
            #[trigger] is_display_order(sysfs_candidates(cards@, entries@), order) && offered@
                == order.map_values(|k: usize| cards@[k as int]),
{
    let ghost expected = sysfs_candidates(cards@, entries@);
    let mut candidates: Vec<Candidate> = Vec::new();
    let n: usize = cards.len();
    let mut i: usize = 0;
    while i < n
        invariant
            i <= n,
            n == cards@.len(),
            expected == sysfs_candidates(cards@, entries@),
            candidates@ == expected.take(i as int),
        decreases n - i,
    {
        let card: u8 = cards[i];
        let connectors = drm_connectors(card, entries);
        let connected = is_any_connected(entries, &connectors);
        let has_connector = connectors.len() > 0;
        proof {
            let candidate = sysfs_candidate(card, entries@);
            assert(entries@.len() == entries.len());
            assert(has_connector == candidate.has_connector) by {
                if has_connector {
                    assert(is_connector(card, entries@[connectors@[0] as int]));
                }
                if candidate.has_connector {
                    let j = choose|j: int|
                        0 <= j < entries@.len() && #[trigger] is_connector(card, entries@[j]);
                    assert(is_connector(card, entries@[(j as usize) as int]));
                    assert(connectors@.contains(j as usize));
                }
            }
            assert(connected == candidate.connected) by {
                if connected {
                    let k = choose|k: int|
                        0 <= k < connectors@.len() && reports_display(
                            entries@[#[trigger] connectors@[k] as int],
                        );
                    assert(is_connector(card, entries@[connectors@[k] as int]));
                }
                if candidate.connected {
                    let j = choose|j: int|
                        0 <= j < entries@.len() && #[trigger] is_connector(card, entries@[j])
                            && reports_display(entries@[j]);
                    assert(is_connector(card, entries@[(j as usize) as int]));
                    assert(connectors@.contains(j as usize));
                    let k = choose|k: int|
                        0 <= k < connectors@.len() && connectors@[k] == j as usize;
                    assert(reports_display(entries@[connectors@[k] as int]));
                }
            }
        }
        candidates.push(Candidate { index: card, has_connector, connected });
        assert(candidates@ =~= expected.take(i + 1));
        i = i + 1;
    }
    assert(expected.take(n as int) =~= expected);
    let order = display_order(&candidates);
    let ghost chosen = order@;
    let mut offered: Vec<u8> = Vec::new();
    let m: usize = order.len();
    let mut k: usize = 0;
    while k < m
        invariant
            k <= m,
            m == order@.len(),
            order@ == chosen,
            expected.len() == cards@.len(),
            is_display_order(expected, chosen),
            offered@ == chosen.map_values(|k: usize| cards@[k as int]).take(k as int),
        decreases m - k,
    {
        let at: usize = order[k];
        assert(chosen[k as int] < expected.len());
        offered.push(cards[at]);
        assert(offered@ =~= chosen.map_values(|k: usize| cards@[k as int]).take(k + 1));
        k = k + 1;
    }
    assert(offered@ =~= chosen.map_values(|k: usize| cards@[k as int]));
    offered
}

/// What a connector is for, as far as that matters here.
#[derive(Debug, Clone, Copy, PartialEq, Eq, Structural)]
pub enum ConnectorInterface {
    /// Captures what is displayed; cannot present a display.
    Writeback,
    /// Anything else.
    Display,
}

/// Whether a display is attached to a connector.
#[derive(Debug, Clone, Copy, PartialEq, Eq, Structural)]
pub enum ConnectorState {
    Connected,
    Disconnected,
    Unknown,
}

/// A connector and its interface, where it could be probed.
#[derive(Debug, Clone, Copy, PartialEq, Eq, Structural)]
pub struct ConnectorProbe {
    pub handle: u32,
    pub interface: Option<ConnectorInterface>,
}

/// The connectors that can present a display, of those probed. One whose
/// probe failed is kept.
pub open spec fn presenting(probes: Seq<ConnectorProbe>) -> Seq<u32>
    decreases probes.len(),
{
    if probes.len() == 0 {
        Seq::empty()
    } else {
        let earlier = presenting(probes.drop_last());
        if probes.last().interface == Some(ConnectorInterface::Writeback) {
            earlier
        } else {
            earlier.push(probes.last().handle)
        }
    }
}

/// The connectors that can present a display, of those probed. One whose
/// probe failed is kept rather than silently dropped.
pub fn display_connectors(probes: &Vec<ConnectorProbe>) -> (handles: Vec<u32>)
    ensures
        handles@ == presenting(probes@),
{
    let mut handles: Vec<u32> = Vec::new();
    let n: usize = probes.len();
    let mut i: usize = 0;
    assert(probes@.take(0) =~= Seq::<ConnectorProbe>::empty());
    while i < n
        invariant
            i <= n,
            n == probes@.len(),
            handles@ == presenting(probes@.take(i as int)),
        decreases n - i,
    {
        proof {
            assert(probes@.take(i + 1).drop_last() =~= probes@.take(i as int));
            assert(probes@.take(i + 1).last() == probes@[i as int]);
        }
        if probes[i].interface != Some(ConnectorInterface::Writeback) {
            handles.push(probes[i].handle);
        }
        i = i + 1;
    }
    assert(probes@.take(n as int) =~= probes@);
    handles
}

/// Is a display attached to any of the connectors? One whose state could
/// not be read does not count.
pub fn any_connected(states: &Vec<Option<ConnectorState>>) -> (yes: bool)
    ensures
        yes == states@.contains(Some(ConnectorState::Connected)),
{
    let n: usize = states.len();
    let mut i: usize = 0;
    while i < n
        invariant
            i <= n,
            n == states@.len(),
            forall|j: int| 0 <= j < i ==> states@[j] != Some(ConnectorState::Connected),
        decreases n - i,
    {
        if states[i] == Some(ConnectorState::Connected) {
            return true;
        }
        i = i + 1;
    }
    false
}

/// What came of opening and probing a card node.
pub enum CardProbe {
    /// It could not be opened.
    Unopened,
    /// Another process is its master.
    NotMaster,
    /// Its objects could not be listed.
    NoResources,
    /// Its planes could not be listed.
    NoPlanes,
    /// It was opened as master and probed.
    Probed {
        crtcs: Vec<u32>,
        connectors: Vec<ConnectorProbe>,
        /// The states of the connectors that can present a display.
        states: Vec<Option<ConnectorState>>,
        planes: Vec<u32>,
    },
}

/// One opened card, probed and ready to be registered.
pub struct OpenedCard {
    pub index: u8,
    pub crtcs: Vec<u32>,
    pub connectors: Vec<u32>,
    pub planes: Vec<u32>,
    pub any_connected: bool,
}

/// The card that a probe leaves to be registered: none where any step of
/// the probe failed.
pub fn usable_card(index: u8, probe: CardProbe) -> (card: Option<OpenedCard>)
    ensures
        match probe {
            CardProbe::Probed { crtcs, connectors, states, planes } => card matches Some(card) && {
                &&& card.index == index
                &&& card.crtcs == crtcs
                &&& card.connectors@ == presenting(connectors@)
                &&& card.planes == planes
                &&& card.any_connected == states@.contains(Some(ConnectorState::Connected))
            },
            _ => card is None,
        },
{
    match probe {
        CardProbe::Probed { crtcs, connectors, states, planes } => Some(
            OpenedCard {
                index,
                crtcs,
                connectors: display_connectors(&connectors),
                planes,
                any_connected: any_connected(&states),
            },
        ),
        _ => None,
    }
}

/// What an opened card has to offer.
pub open spec fn opened_candidate(card: OpenedCard) -> Candidate {
    Candidate {
        index: card.index,
        has_connector: card.connectors@.len() > 0,
        connected: card.any_connected,
    }
}

/// What each of some opened cards has to offer.
pub open spec fn opened_candidates(opened: Seq<OpenedCard>) -> Seq<Candidate> {
    opened.map_values(|card: OpenedCard| opened_candidate(card))
}

/// An opened card as it is registered: without a lease.
pub open spec fn device_of(card: OpenedCard) -> DrmDeviceView {
    DrmDeviceView {
        index: card.index,
        crtcs: card.crtcs@,
        connectors: card.connectors@,
        planes: card.planes@,
        active_lease: None,
    }
}

/// The registered cards once those of `order` have been registered.
pub open spec fn registered(
    devices: Map<Resource, DrmDeviceView>,
    opened: Seq<OpenedCard>,
    order: Seq<usize>,
) -> Map<Resource, DrmDeviceView>
    decreases order.len(),
{
    if order.len() == 0 {
        devices
    } else {
        let card = opened[order.last() as int];
        registered(devices, opened, order.drop_last()).insert(
            Resource::Drm { card: card.index },
            device_of(card),
        )
    }
}

fn copied(handles: &Vec<u32>) -> (copy: Vec<u32>)
    ensures
        copy@ == handles@,
{
    let mut copy: Vec<u32> = Vec::new();
    let n: usize = handles.len();
    let mut i: usize = 0;
    while i < n
        invariant
            i <= n,
            n == handles@.len(),
            copy@ == handles@.take(i as int),
        decreases n - i,
    {
        copy.push(handles[i]);
        assert(copy@ =~= handles@.take(i + 1));
        i = i + 1;
    }
    assert(handles@.take(n as int) =~= handles@);
    copy
}

/// Registers and advertises the opened cards that can present a display, in
/// the order in which they are offered.
pub fn register_cards(
    opened: &Vec<OpenedCard>,
    registry: &mut DrmRegistry,
    advertised: &mut Vec<Resource>,
)
    ensures
        exists|order: Seq<usize>|
            {
                &&& #[trigger] is_display_order(opened_candidates(opened@), order)
                &&& final(advertised)@ == old(advertised)@ + order.map_values(
                    |k: usize| Resource::Drm { card: opened@[k as int].index },
                )
                &&& final(registry)@ == registered(old(registry)@, opened@, order)
            },
{
    let ghost expected = opened_candidates(opened@);
    let ghost devices = registry@;
    let ghost offered = advertised@;
    let mut candidates: Vec<Candidate> = Vec::new();
    let n: usize = opened.len();
    let mut i: usize = 0;
    while i < n
        invariant
            i <= n,
            n == opened@.len(),
            expected == opened_candidates(opened@),
            candidates@ == expected.take(i as int),
        decreases n - i,
    {
        candidates.push(
            Candidate {
                index: opened[i].index,
                has_connector: opened[i].connectors.len() > 0,
                connected: opened[i].any_connected,
            },
        );
        assert(candidates@ =~= expected.take(i + 1));
        i = i + 1;
    }
    assert(expected.take(n as int) =~= expected);
    let order = display_order(&candidates);
    let ghost chosen = order@;
    let ghost resources = chosen.map_values(
        |k: usize| Resource::Drm { card: opened@[k as int].index },
    );
    let m: usize = order.len();
    let mut k: usize = 0;
    assert(resources.take(0) =~= Seq::<Resource>::empty());
    while k < m
        invariant
            k <= m,
            m == order@.len(),
            order@ == chosen,
            expected.len() == opened@.len(),
            is_display_order(expected, chosen),
            resources == chosen.map_values(
                |k: usize| Resource::Drm { card: opened@[k as int].index },
            ),
            advertised@ == offered + resources.take(k as int),
            registry@ == registered(devices, opened@, chosen.take(k as int)),
        decreases m - k,
    {
        let at: usize = order[k];
        assert(chosen[k as int] < expected.len());
        let card = &opened[at];
        let resource = Resource::Drm { card: card.index };
        let device = DrmDevice {
            index: card.index,
            crtcs: copied(&card.crtcs),
            connectors: copied(&card.connectors),
            planes: copied(&card.planes),
            active_lease: None,
        };
        registry.insert(resource, device);
        advertised.push(resource);
        proof {
            assert(device@ =~= device_of(opened@[at as int]));
            assert(chosen.take(k + 1).drop_last() =~= chosen.take(k as int));
            assert(chosen.take(k + 1).last() == at);
            assert(resources.take(k + 1) =~= resources.take(k as int).push(resource));
        }
        k = k + 1;
    }
    assert(chosen.take(m as int) =~= chosen);
    assert(resources.take(m as int) =~= resources);
}

proof fn numeral_is_read_back(n: nat)
    ensures
        text::decimal(n).len() > 0,
        all_digits(text::decimal(n)),
        digits_value(text::decimal(n)) == n,
    decreases n,
{
    let numeral = text::decimal(n);
    if n >= 10 {
        let high = text::decimal(n / 10);
        numeral_is_read_back(n / 10);
        assert(numeral.drop_last() =~= high);
        assert(numeral.last() == text::digit(n % 10));
        assert(numeral.last() as nat == 48 + n % 10);
        assert(digits_value(numeral) == digits_value(high) * 10 + n % 10);
        assert forall|i: int| 0 <= i < numeral.len() implies '0' <= #[trigger] numeral[i]
            <= '9' by {
            if i < high.len() {
                assert(numeral[i] == high[i]);
            }
        }
    } else {
        assert(numeral.last() == text::digit(n));
        assert(numeral.last() as nat == 48 + n);
        assert(numeral.drop_last().len() == 0);
        assert(digits_value(numeral.drop_last()) == 0);
    }
}

/// The index of a card is read back from the name of its node, however it is
/// spelled there, plainly or behind a plus sign, as long as it fits in a byte;
/// a larger number names no card.
pub proof fn card_name_is_read_back(n: nat)
    ensures
        card_named("card"@ + text::decimal(n)) == (if n <= 255 {
            Some(n as u8)
        } else {
            None::<u8>
        }),
        card_named("card+"@ + text::decimal(n)) == card_named("card"@ + text::decimal(n)),
{
    let numeral = text::decimal(n);
    numeral_is_read_back(n);
    assert('0' <= numeral[0] <= '9');
    name_spells_what_follows(numeral);
    name_spells_what_follows(seq!['+'] + numeral);
    assert((seq!['+'] + numeral).drop_first() =~= numeral);
    assert("card+"@ + numeral =~= "card"@ + (seq!['+'] + numeral)) by {
        reveal_strlit("card");
        reveal_strlit("card+");
    }
}

proof fn name_spells_what_follows(rest: Seq<char>)
    ensures
        card_named("card"@ + rest) == byte_spelled(rest),
{
    reveal_strlit("card");
    let name = "card"@ + rest;
    assert(name.skip(4) =~= rest);
    assert("card"@ =~= name.subrange(0, 4));
}

/// Leading zeros do not matter to the value of a numeral.
pub proof fn leading_zero_does_not_count(digits: Seq<char>)
    ensures
        digits_value(seq!['0'] + digits) == digits_value(digits),
    decreases digits.len(),
{
    let longer = seq!['0'] + digits;
    if digits.len() > 0 {
        leading_zero_does_not_count(digits.drop_last());
        assert(longer.drop_last() =~= seq!['0'] + digits.drop_last());
    } else {
        assert(longer.drop_last() =~= digits);
    }
}

/// A node that is a card's has a name that begins with `card` and goes on
/// with at least one digit and nothing but digits, up to a plus sign before
/// them.
pub proof fn only_numbered_nodes_are_cards(name: Seq<char>)
    requires
        card_named(name) is Some,
    ensures
        name.len() >= 5,
        name[0] == 'c' && name[1] == 'a' && name[2] == 'r' && name[3] == 'd',
        name[4] == '+' || '0' <= name[4] <= '9',
        name[4] == '+' ==> name.len() >= 6,
        forall|i: int| 5 <= i < name.len() ==> '0' <= #[trigger] name[i] <= '9',
{
    reveal_strlit("card");
    let rest = name.skip(4);
    assert forall|i: int| 0 <= i < 4 implies "card"@[i] == #[trigger] name[i] by {
        assert(name.subrange(0, 4)[i] == name[i]);
    }
    assert(name[0] == 'c' && name[1] == 'a' && name[2] == 'r' && name[3] == 'd');
    assert(rest.len() > 0);
    if rest[0] == '+' {
        let digits = rest.drop_first();
        assert forall|i: int| 5 <= i < name.len() implies '0' <= #[trigger] name[i] <= '9' by {
            assert(digits[i - 5] == name[i]);
        }
    } else {
        assert('0' <= rest[0] <= '9');
        assert forall|i: int| 5 <= i < name.len() implies '0' <= #[trigger] name[i] <= '9' by {
            assert(rest[i - 4] == name[i]);
        }
    }
}

/// The cards are found by their names alone: an index is found where a name
/// spells it, as often as names do.
pub proof fn named_cards_are_found(names: Seq<Seq<char>>)
    ensures
        indices_named(names) == names.filter(
            |name: Seq<char>| card_named(name) is Some,
        ).map_values(|name: Seq<char>| card_named(name)->0),
    decreases names.len(),
{
    reveal(Seq::filter);
    let named = |name: Seq<char>| card_named(name) is Some;
    let index = |name: Seq<char>| card_named(name)->0;
    if names.len() > 0 {
        let shorter = names.drop_last();
        named_cards_are_found(shorter);
        if named(names.last()) {
            assert(names.filter(named) =~= shorter.filter(named).push(names.last()));
            assert(names.filter(named).map_values(index) =~= shorter.filter(named).map_values(
                index,
            ).push(index(names.last())));
        } else {
            assert(names.filter(named) =~= shorter.filter(named));
        }
    } else {
        assert(names.filter(named).map_values(index) =~= Seq::empty());
    }
}

/// Cards are offered by priority: all that can present a display and no
/// others, each once; those with a display connected before those without,
/// and among equals the lower index first.
pub proof fn cards_are_offered_by_priority(candidates: Seq<Candidate>, order: Seq<usize>)
    requires
        is_display_order(candidates, order),
    ensures
        forall|i: usize|
            #![trigger order.contains(i)]
            order.contains(i) ==> i < candidates.len() && candidates[i as int].has_connector,
        forall|i: usize|
            i < candidates.len() && (#[trigger] candidates[i as int]).has_connector
                ==> order.contains(i),
        order.no_duplicates(),
        forall|k: int, m: int|
            0 <= k < m < order.len() ==> {
                let a = candidates[#[trigger] order[k] as int];
                let b = candidates[#[trigger] order[m] as int];
                &&& b.connected ==> a.connected
                &&& a.connected == b.connected ==> a.index <= b.index
            },
{
    assert forall|k: int, m: int| 0 <= k < m < order.len() implies {
        let a = candidates[#[trigger] order[k] as int];
        let b = candidates[#[trigger] order[m] as int];
        &&& b.connected ==> a.connected
        &&& a.connected == b.connected ==> a.index <= b.index
        &&& order[k] != order[m]
    } by {
        assert(comes_first(candidates, order[k] as int, order[m] as int));
    }
    assert forall|k: int, m: int|
        0 <= k < order.len() && 0 <= m < order.len() && k != m implies order[k] != order[m] by {
        if k < m {
            assert(comes_first(candidates, order[k] as int, order[m] as int));
        } else {
            assert(comes_first(candidates, order[m] as int, order[k] as int));
        }
    }
}

/// No connector belongs to two cards: that of card 11 is none of card 1.
pub proof fn cards_share_no_connector(a: u8, b: u8, entry: SysfsEntry)
    requires
        is_connector(a, entry),
        is_connector(b, entry),
    ensures
        a == b,
{
    reveal_strlit("card");
    reveal_strlit("-");
    let name = entry.name@;
    let x = text::decimal(a as nat);
    let y = text::decimal(b as nat);
    numeral_is_read_back(a as nat);
    numeral_is_read_back(b as nat);
    let p = "card"@ + x + "-"@;
    let q = "card"@ + y + "-"@;
    assert forall|i: int| 0 <= i < p.len() implies p[i] == #[trigger] name[i] by {
        assert(name.subrange(0, p.len() as int)[i] == name[i]);
    }
    assert forall|i: int| 0 <= i < q.len() implies q[i] == #[trigger] name[i] by {
        assert(name.subrange(0, q.len() as int)[i] == name[i]);
    }
    let m = x.len() as int;
    let n = y.len() as int;
    assert(p[4 + m] == '-');
    assert(q[4 + n] == '-');
    if m < n {
        assert(q[4 + m] == y[m]);
        assert('0' <= y[m] <= '9');
        assert(name[4 + m] == '-');
    } else if n < m {
        assert(p[4 + n] == x[n]);
        assert('0' <= x[n] <= '9');
        assert(name[4 + n] == '-');
    } else {
        assert forall|i: int| 0 <= i < m implies x[i] == y[i] by {
            assert(p[4 + i] == name[4 + i]);
            assert(q[4 + i] == name[4 + i]);
        }
        assert(x =~= y);
    }
}

/// What is said of a card rests on its own connectors alone: entries that are
/// none of them can come and go.
pub proof fn other_entries_do_not_matter(card: u8, entries: Seq<SysfsEntry>, other: SysfsEntry)
    requires
        !is_connector(card, other),
    ensures
        sysfs_candidate(card, entries.push(other)) == sysfs_candidate(card, entries),
{
    let more = entries.push(other);
    assert forall|i: int| 0 <= i < entries.len() implies more[i] == #[trigger] entries[i] by {}
    if sysfs_candidate(card, entries).has_connector {
        let i = choose|i: int| 0 <= i < entries.len() && #[trigger] is_connector(card, entries[i]);
        assert(is_connector(card, more[i]));
    }
    if sysfs_candidate(card, entries).connected {
        let i = choose|i: int|
            0 <= i < entries.len() && #[trigger] is_connector(card, entries[i])
                && reports_display(entries[i]);
        assert(is_connector(card, more[i]));
    }
    if sysfs_candidate(card, more).has_connector {
        let i = choose|i: int| 0 <= i < more.len() && #[trigger] is_connector(card, more[i]);
        assert(is_connector(card, entries[i]));
    }
    if sysfs_candidate(card, more).connected {
        let i = choose|i: int|
            0 <= i < more.len() && #[trigger] is_connector(card, more[i]) && reports_display(
                more[i],
            );
        assert(is_connector(card, entries[i]));
    }
}

/// A card has a connector where one of the entries is its own, and has a
/// display where one of its own reports one.
pub proof fn own_connector_counts(card: u8, entries: Seq<SysfsEntry>, i: int)
    requires
        0 <= i < entries.len(),
        is_connector(card, entries[i]),
    ensures
        sysfs_candidate(card, entries).index == card,
        sysfs_candidate(card, entries).has_connector,
        reports_display(entries[i]) ==> sysfs_candidate(card, entries).connected,
{
}

/// Of the probed connectors all stay, in their order, but those that are
/// known to capture only.
pub proof fn only_writeback_is_left_out(probes: Seq<ConnectorProbe>)
    ensures
        presenting(probes) == probes.filter(
            |probe: ConnectorProbe| probe.interface != Some(ConnectorInterface::Writeback),
        ).map_values(|probe: ConnectorProbe| probe.handle),
    decreases probes.len(),
{
    reveal(Seq::filter);
    let kept = |probe: ConnectorProbe| probe.interface != Some(ConnectorInterface::Writeback);
    let handle = |probe: ConnectorProbe| probe.handle;
    if probes.len() > 0 {
        let shorter = probes.drop_last();
        only_writeback_is_left_out(shorter);
        if kept(probes.last()) {
            assert(probes.filter(kept) =~= shorter.filter(kept).push(probes.last()));
            assert(probes.filter(kept).map_values(handle) =~= shorter.filter(kept).map_values(
                handle,
            ).push(probes.last().handle));
        } else {
            assert(probes.filter(kept) =~= shorter.filter(kept));
        }
    } else {
        assert(probes.filter(kept).map_values(handle) =~= Seq::empty());
    }
}

/// An opened card is placed by its own index, by whether it has connectors,
/// and by whether a display was found on any.
pub proof fn opened_card_is_placed_by_what_it_has(opened: Seq<OpenedCard>, k: int)
    requires
        0 <= k < opened.len(),
    ensures
        ({
            let candidate = opened_candidates(opened)[k];
            &&& opened_candidates(opened).len() == opened.len()
            &&& candidate.index == opened[k].index
            &&& candidate.has_connector <==> opened[k].connectors@.len() > 0
            &&& candidate.connected <==> opened[k].any_connected
        }),
{
}

/// Every connector of a card counts, whatever it is called behind the card's
/// number, but one for writeback.
pub proof fn any_name_behind_the_number_counts(card: u8, entry: SysfsEntry, tail: Seq<char>)
    requires
        entry.name@ == "card"@ + text::decimal(card as nat) + "-"@ + tail,
    ensures
        is_connector(card, entry) <==> !text::occurs_in("Writeback"@, entry.name@),
{
    let head = "card"@ + text::decimal(card as nat) + "-"@;
    assert(head =~= entry.name@.subrange(0, head.len() as int));
}

/// A connector reports a display where its status says `connected` and
/// nothing else, whatever blanks and line ends stand around that.
pub proof fn only_connected_counts(
    entry: SysfsEntry,
    before: Seq<char>,
    word: Seq<char>,
    after: Seq<char>,
)
    requires
        entry.status matches Some(status) && status@ == before + word + after,
        word.len() > 0,
        forall|i: int| 0 <= i < word.len() ==> '!' <= #[trigger] word[i] <= '~',
        forall|i: int|
            0 <= i < before.len() ==> #[trigger] before[i] == ' ' || before[i] == '\n',
        forall|i: int| 0 <= i < after.len() ==> #[trigger] after[i] == ' ' || after[i] == '\n',
    ensures
        reports_display(entry) <==> word == "connected"@,
{
    let status = before + word + after;
    assert('!' <= word[0] <= '~');
    assert('!' <= word[word.len() - 1] <= '~');
    text::visible_characters_are_not_white(word[0]);
    text::visible_characters_are_not_white(word.last());
    text::blanks_around_a_word_do_not_matter(before, word, after);
    if reports_display(entry) {
        text::text_reads_one_word(status, word, "connected"@);
    }
}

/// Where the status cannot be read, no display is reported.
pub proof fn unread_status_does_not_count(entry: SysfsEntry)
    requires
        entry.status is None,
    ensures
        !reports_display(entry),
{
}

} // verus!
