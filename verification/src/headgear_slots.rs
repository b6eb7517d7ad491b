//! The headgear slot table: which head slot each headgear sprite (view id) occupies.
use vstd::prelude::*;
use vstd::string::StringExecFns;
use crate::text::starts_with;
use std::collections::HashMap;

verus! {

// ---------------------------------------------------------------------------
// Output types
// ---------------------------------------------------------------------------

/// The headgear slots file: one entry per view id.
pub struct HeadgearSlotsFile {
    pub headgear: Vec<HeadgearSlotEntry>,
}

/// One headgear sprite: its view id, its head slot, its accname and the items that use it.
pub struct HeadgearSlotEntry {
    pub view: u32,
    pub slot: String,
    pub accname: String,
    pub items: Vec<u32>,
}

/// A headgear entry as plain values.
pub struct SlotEntryView {
    pub view: u32,
    pub slot: Seq<char>,
    pub accname: Seq<char>,
    pub items: Seq<u32>,
}

impl View for HeadgearSlotEntry {
    type V = SlotEntryView;

    open spec fn view(&self) -> SlotEntryView {
        SlotEntryView { view: self.view, slot: self.slot@, accname: self.accname@, items: self.items@ }
    }
}

// ---------------------------------------------------------------------------
// accname_eng.lub parser
// ---------------------------------------------------------------------------

/// An uppercase ASCII letter.
pub open spec fn is_upper(b: u8) -> bool {
    0x41 <= b <= 0x5a
}

/// An ASCII digit.
pub open spec fn is_digit(b: u8) -> bool {
    0x30 <= b <= 0x39
}

/// `s` matches `_[A-Z][A-Z0-9_]+`.
pub open spec fn accname_pattern(s: Seq<u8>) -> bool {
    &&& s.len() >= 3
    &&& s[0] == 0x5f
    &&& is_upper(s[1])
    &&& forall|k: int| 2 <= k < s.len() ==> is_upper(#[trigger] s[k]) || is_digit(s[k]) || s[k] == 0x5f
}

/// Returns true if the string matches `_[A-Z][A-Z0-9_]+`.
fn is_accname(s: &[u8]) -> (r: bool)
    ensures
        r == accname_pattern(s@),
{
    if s.len() < 3 || s[0] != 0x5f || !(0x41 <= s[1] && s[1] <= 0x5a) {
        return false;
    }
    for k in 2..s.len()
        invariant
            forall|j: int| 2 <= j < k ==> is_upper(#[trigger] s@[j]) || is_digit(s@[j]) || s@[j] == 0x5f,
    {
        let b = s[k];
        if !((0x41 <= b && b <= 0x5a) || (0x30 <= b && b <= 0x39) || b == 0x5f) {
            assert(s@[k as int] == b);
            return false;
        }
    }
    true
}

/// ASCII lowercase of one byte.
pub open spec fn ascii_lower(b: u8) -> u8 {
    if is_upper(b) { (b + 32) as u8 } else { b }
}

/// The name that an accname gives: without its leading `_`, in lowercase.
pub open spec fn accname_name(s: Seq<u8>) -> Seq<u8> {
    s.drop_first().map_values(|b: u8| ascii_lower(b))
}

/// The bytes of an ASCII name as characters.
pub open spec fn ascii_chars(s: Seq<u8>) -> Seq<char> {
    s.map_values(|b: u8| b as char)
}

/// The scan of the bytecode so far: the printable run being read, and the names found.
pub open spec fn lub_scan(data: Seq<u8>) -> (Seq<u8>, Seq<Seq<u8>>)
    decreases data.len(),
{
    if data.len() == 0 {
        (Seq::empty(), Seq::empty())
    } else {
        let (buf, names) = lub_scan(data.drop_last());
        let b = data.last();
        if b == 0 {
            if accname_pattern(buf) && !names.contains(accname_name(buf)) {
                (Seq::empty(), names.push(accname_name(buf)))
            } else {
                (Seq::empty(), names)
            }
        } else if 0x20 <= b < 0x7f {
            (buf.push(b), names)
        } else {
            (Seq::empty(), names)
        }
    }
}

/// The accnames of the compiled Lua bytecode, in order: every NUL-terminated run of
/// printable ASCII that matches the accname pattern, without its `_`, in lowercase,
/// each once.
pub open spec fn accnames_spec(data: Seq<u8>) -> Seq<Seq<char>> {
    lub_scan(data).1.map_values(|n: Seq<u8>| ascii_chars(n))
}

/// Whether `a` and `b` hold the same bytes.
fn eq_bytes(a: &[u8], b: &[u8]) -> (r: bool)
    ensures
        r == (a@ == b@),
{
    if a.len() != b.len() {
        return false;
    }
    for i in 0..a.len()
        invariant
            a.len() == b.len(),
            forall|k: int| 0 <= k < i ==> a@[k] == b@[k],
    {
        if a[i] != b[i] {
            return false;
        }
    }
    assert(a@ =~= b@);
    true
}

/// Whether `names` holds `n`.
fn contains_bytes(names: &Vec<Vec<u8>>, n: &Vec<u8>) -> (r: bool)
    ensures
        r == names@.map_values(|v: Vec<u8>| v@).contains(n@),
{
    let ghost ns = names@.map_values(|v: Vec<u8>| v@);
    for i in 0..names.len()
        invariant
            ns == names@.map_values(|v: Vec<u8>| v@),
            forall|j: int| 0 <= j < i ==> ns[j] != n@,
    {
        let cand = &names[i];
        if eq_bytes(cand, n) {
            assert(ns[i as int] == n@);
            return true;
        }
        assert(ns[i as int] == cand@);
    }
    false
}

/// Extracts the ordered accname list from the compiled Lua bytecode.
///
/// The bytecode holds NUL-terminated ASCII strings in order; those that match
/// `_[A-Z][A-Z0-9_]+` (the accname pattern) are kept, without the leading `_`, in
/// lowercase, each once. The list is 0-indexed: view id 1 is index 0.
pub fn parse_accname_lub(data: &[u8]) -> (r: Vec<String>)
    ensures
        r@.map_values(|s: String| s@) == accnames_spec(data@),
{
    let mut names: Vec<Vec<u8>> = Vec::new();
    let mut buf: Vec<u8> = Vec::new();
    for i in 0..data.len()
        invariant
            (buf@, names@.map_values(|v: Vec<u8>| v@)) == lub_scan(data@.take(i as int)),
    {
        let b = data[i];
        assert(data@.take(i + 1).drop_last() =~= data@.take(i as int));
        let ghost ns = names@.map_values(|v: Vec<u8>| v@);
        if b == 0 {
            if buf.len() > 0 {
                if is_accname(&buf) {
                    let mut name: Vec<u8> = Vec::new();
                    for k in 1..buf.len()
                        invariant
                            1 <= k <= buf.len(),
                            name@ == buf@.subrange(1, k as int).map_values(|c: u8| ascii_lower(c)),
                    {
                        let c = buf[k];
                        let l = if 0x41 <= c && c <= 0x5a { c + 32 } else { c };
                        name.push(l);
                        assert(name@ =~= buf@.subrange(1, k + 1).map_values(|c: u8| ascii_lower(c)));
                    }
                    assert(buf@.subrange(1, buf@.len() as int) =~= buf@.drop_first());
                    if !contains_bytes(&names, &name) {
                        names.push(name);
                        assert(names@.map_values(|v: Vec<u8>| v@) =~= ns.push(accname_name(buf@)));
                    }
                }
                buf.clear();
            }
            assert(buf@ =~= Seq::<u8>::empty());
        } else if 0x20 <= b && b < 0x7f {
            buf.push(b);
        } else {
            buf.clear();
        }
    }
    assert(data@.take(data.len() as int) =~= data@);
    let ghost ns = names@.map_values(|v: Vec<u8>| v@);
    let mut r: Vec<String> = Vec::new();
    for i in 0..names.len()
        invariant
            ns == names@.map_values(|v: Vec<u8>| v@),
            ns == lub_scan(data@).1,
            r@.map_values(|s: String| s@) == ns.take(i as int).map_values(
                |n: Seq<u8>| ascii_chars(n),
            ),
    {
        let n = &names[i];
        let mut s = String::new();
        for k in 0..n.len()
            invariant
                s@ == ascii_chars(n@.take(k as int)),
        {
            crate::text::string_push(&mut s, n[k] as char);
            assert(ascii_chars(n@.take(k + 1)) =~= ascii_chars(n@.take(k as int)).push(
                n@[k as int] as char,
            ));
        }
        assert(n@.take(n.len() as int) =~= n@);
        assert(ns[i as int] == n@);
        let ghost prev = r@.map_values(|s: String| s@);
        r.push(s);
        assert(r@.map_values(|s: String| s@) =~= prev.push(ascii_chars(n@)));
        assert(ns.take(i + 1) =~= ns.take(i as int).push(n@));
    }
    assert(ns.take(names.len() as int) =~= ns);
    r
}

} // verus!

verus! {

// ---------------------------------------------------------------------------
// Head slots
// ---------------------------------------------------------------------------

/// The head slot that a headgear item occupies.
#[derive(Clone, Copy, Debug, PartialEq, Eq, Structural)]
pub enum HeadSlot {
    Top,
    Mid,
    Low,
    /// The item spans several head slots; it is written out as the top slot.
    Mixed,
}

/// The name that the slots file gives a slot; `Mixed` is written as the top slot.
pub open spec fn slot_name(s: HeadSlot) -> Seq<char> {
    match s {
        HeadSlot::Top | HeadSlot::Mixed => "Head_Top"@,
        HeadSlot::Mid => "Head_Mid"@,
        HeadSlot::Low => "Head_Low"@,
    }
}

impl HeadSlot {
    /// Combining two slots keeps a slot both agree on, else gives `Mixed`.
    pub open spec fn spec_merge(self, other: HeadSlot) -> HeadSlot {
        if self == other {
            self
        } else {
            HeadSlot::Mixed
        }
    }

    pub fn as_str(self) -> (r: &'static str)
        ensures
            r@ == slot_name(self),
    {
        match self {
            HeadSlot::Top | HeadSlot::Mixed => "Head_Top",
            HeadSlot::Mid => "Head_Mid",
            HeadSlot::Low => "Head_Low",
        }
    }

    pub fn merge(self, other: HeadSlot) -> (r: HeadSlot)
        ensures
            r == self.spec_merge(other),
    {
        if self == other {
            self
        } else {
            HeadSlot::Mixed
        }
    }
}

} // verus!

verus! {

// ---------------------------------------------------------------------------
// rAthena headgear parser
// ---------------------------------------------------------------------------

/// Per-item headgear metadata extracted from rAthena `item_db_equip.yml`.
#[derive(Clone, Copy)]
pub struct HeadgearItem {
    pub id: u32,
    pub view: u32,
    pub slot: HeadSlot,
}

/// Where the scan of `item_db_equip.yml` stands after some lines.
pub struct ItemScan {
    /// The complete items so far.
    pub items: Seq<HeadgearItem>,
    /// The fields read of the current item.
    pub id: Option<u32>,
    pub view: Option<u32>,
    pub slot: Option<HeadSlot>,
    /// Inside the `Locations:` block of the current item.
    pub in_location: bool,
}

/// Nothing read yet.
pub open spec fn scan_start() -> ItemScan {
    ItemScan { items: Seq::empty(), id: None, view: None, slot: None, in_location: false }
}

/// The items with the current one added, when all of its fields were read.
pub open spec fn flush(st: ItemScan) -> Seq<HeadgearItem> {
    match (st.id, st.view, st.slot) {
        (Some(id), Some(view), Some(slot)) => st.items.push(HeadgearItem { id, view, slot }),
        _ => st.items,
    }
}

/// A slot met in a `Locations:` block, combined with the slot read before.
pub open spec fn add_slot(cur: Option<HeadSlot>, s: HeadSlot) -> HeadSlot {
    match cur {
        Some(existing) => existing.spec_merge(s),
        None => s,
    }
}

/// A number field: the text before any `#` comment, trimmed, as a `u32`.
pub open spec fn field_value(rest: Seq<char>) -> Option<u32> {
    crate::text::parse_u32_spec(crate::text::trim(crate::text::before_first(rest, '#')))
}

pub open spec fn id_key() -> Seq<char> {
    seq!['-', ' ', 'I', 'd', ':']
}

pub open spec fn view_key() -> Seq<char> {
    seq!['V', 'i', 'e', 'w', ':']
}

pub open spec fn locations_key() -> Seq<char> {
    seq!['L', 'o', 'c', 'a', 't', 'i', 'o', 'n', 's', ':']
}

pub open spec fn top_key() -> Seq<char> {
    seq!['H', 'e', 'a', 'd', '_', 'T', 'o', 'p', ':']
}

pub open spec fn mid_key() -> Seq<char> {
    seq!['H', 'e', 'a', 'd', '_', 'M', 'i', 'd', ':']
}

pub open spec fn low_key() -> Seq<char> {
    seq!['H', 'e', 'a', 'd', '_', 'L', 'o', 'w', ':']
}

/// The scan after one trimmed line `s`.
pub open spec fn scan_line(st: ItemScan, s: Seq<char>) -> ItemScan {
    let st1 = if starts_with(s, id_key()) {
        ItemScan {
            items: flush(st),
            id: field_value(s.skip(5)),
            view: None,
            slot: None,
            in_location: false,
        }
    } else if s == locations_key() {
        ItemScan { in_location: true, ..st }
    } else if st.in_location {
        if starts_with(s, top_key()) {
            ItemScan { slot: Some(add_slot(st.slot, HeadSlot::Top)), ..st }
        } else if starts_with(s, mid_key()) {
            ItemScan { slot: Some(add_slot(st.slot, HeadSlot::Mid)), ..st }
        } else if starts_with(s, low_key()) {
            ItemScan { slot: Some(add_slot(st.slot, HeadSlot::Low)), ..st }
        } else if s.len() > 0 && !starts_with(s, seq!['#']) {
            ItemScan { in_location: false, ..st }
        } else {
            st
        }
    } else {
        st
    };
    if starts_with(s, view_key()) {
        ItemScan { view: field_value(s.skip(5)), ..st1 }
    } else {
        st1
    }
}

/// The scan after the trimmed lines `ls`.
pub open spec fn scan_lines(ls: Seq<Seq<char>>) -> ItemScan
    decreases ls.len(),
{
    if ls.len() == 0 {
        scan_start()
    } else {
        scan_line(scan_lines(ls.drop_last()), ls.last())
    }
}

/// The lines of `text`, each trimmed.
pub open spec fn trimmed_lines(text: Seq<char>) -> Seq<Seq<char>> {
    crate::text::split_on(text, '\n').map_values(|l: Seq<char>| crate::text::trim(l))
}

/// The headgear items of `item_db_equip.yml`, in file order.
pub open spec fn items_spec(text: Seq<char>) -> Seq<HeadgearItem> {
    flush(scan_lines(trimmed_lines(text)))
}

/// The items grouped by view id, leaving out view 0 (no sprite); each group in file order.
pub open spec fn group_items(items: Seq<HeadgearItem>) -> Map<u32, Seq<(u32, HeadSlot)>>
    decreases items.len(),
{
    if items.len() == 0 {
        Map::empty()
    } else {
        let m = group_items(items.drop_last());
        let it = items.last();
        if it.view > 0 {
            let prev = if m.contains_key(it.view) {
                m[it.view]
            } else {
                Seq::empty()
            };
            m.insert(it.view, prev.push((it.id, it.slot)))
        } else {
            m
        }
    }
}

/// The view of a map of item lists, each list by its view.
pub open spec fn groups_view(m: Map<u32, Vec<(u32, HeadSlot)>>) -> Map<u32, Seq<(u32, HeadSlot)>> {
    Map::new(|k: u32| m.contains_key(k), |k: u32| m[k]@)
}

} // verus!

verus! {

/// The scan state while reading `item_db_equip.yml`.
struct Scanner {
    items: Vec<HeadgearItem>,
    id: Option<u32>,
    view: Option<u32>,
    slot: Option<HeadSlot>,
    in_location: bool,
}

impl Scanner {
    spec fn state(&self) -> ItemScan {
        ItemScan {
            items: self.items@,
            id: self.id,
            view: self.view,
            slot: self.slot,
            in_location: self.in_location,
        }
    }

    /// Adds the current item when all of its fields were read.
    fn flush(&mut self)
        ensures
            final(self).items@ == flush(old(self).state()),
            final(self).id == old(self).id,
            final(self).view == old(self).view,
            final(self).slot == old(self).slot,
            final(self).in_location == old(self).in_location,
    {
        match (self.id, self.view, self.slot) {
            (Some(id), Some(view), Some(slot)) => {
                self.items.push(HeadgearItem { id, view, slot });
            },
            _ => {},
        }
    }

    /// Reads the trimmed line `lo..hi` of `line`.
    fn step(&mut self, line: &[char], lo: usize, hi: usize)
        requires
            lo <= hi <= line.len(),
        ensures
            final(self).state() == scan_line(old(self).state(), line@.subrange(lo as int, hi as int)),
    {
        let ghost s = line@.subrange(lo as int, hi as int);
        let ghost st = self.state();
        let id_k = ['-', ' ', 'I', 'd', ':'];
        let loc_k = ['L', 'o', 'c', 'a', 't', 'i', 'o', 'n', 's', ':'];
        let top_k = ['H', 'e', 'a', 'd', '_', 'T', 'o', 'p', ':'];
        let mid_k = ['H', 'e', 'a', 'd', '_', 'M', 'i', 'd', ':'];
        let low_k = ['H', 'e', 'a', 'd', '_', 'L', 'o', 'w', ':'];
        let hash_k = ['#'];
        let view_k = ['V', 'i', 'e', 'w', ':'];
        assert(id_k@ =~= id_key());
        assert(loc_k@ =~= locations_key());
        assert(top_k@ =~= top_key());
        assert(mid_k@ =~= mid_key());
        assert(low_k@ =~= low_key());
        assert(hash_k@ =~= seq!['#']);
        assert(view_k@ =~= view_key());
        if crate::text::has_prefix(line, lo, hi, &id_k) {
            self.flush();
            self.id = field(line, lo, hi);
            self.view = None;
            self.slot = None;
            self.in_location = false;
        } else if crate::text::range_equals(line, lo, hi, &loc_k) {
            self.in_location = true;
        } else if self.in_location {
            if crate::text::has_prefix(line, lo, hi, &top_k) {
                self.slot = Some(
                    match self.slot {
                        Some(existing) => existing.merge(HeadSlot::Top),
                        None => HeadSlot::Top,
                    },
                );
            } else if crate::text::has_prefix(line, lo, hi, &mid_k) {
                self.slot = Some(
                    match self.slot {
                        Some(existing) => existing.merge(HeadSlot::Mid),
                        None => HeadSlot::Mid,
                    },
                );
            } else if crate::text::has_prefix(line, lo, hi, &low_k) {
                self.slot = Some(
                    match self.slot {
                        Some(existing) => existing.merge(HeadSlot::Low),
                        None => HeadSlot::Low,
                    },
                );
            } else if hi > lo && !crate::text::has_prefix(line, lo, hi, &hash_k) {
                // Left the Locations block.
                self.in_location = false;
            }
        }
        if crate::text::has_prefix(line, lo, hi, &view_k) {
            self.view = field(line, lo, hi);
        }
    }
}

/// The number after a five-character key on the trimmed line `lo..hi`.
fn field(line: &[char], lo: usize, hi: usize) -> (r: Option<u32>)
    requires
        lo <= hi <= line.len(),
        hi - lo >= 5,
    ensures
        r == field_value(line@.subrange(lo as int, hi as int).skip(5)),
{
    assert(line@.subrange(lo as int, hi as int).skip(5) =~= line@.subrange(lo + 5, hi as int));
    let j = crate::text::find_first(line, lo + 5, hi, '#');
    let (a, b) = crate::text::trim_range(line, lo + 5, j);
    crate::text::parse_u32(line, a, b)
}

/// Parses rAthena `item_db_equip.yml` text for headgear items.
/// Returns a map of view id → list of (item id, slot), each list in file order;
/// items with view 0 (no sprite) are left out.
pub fn parse_headgear_items(text: &str) -> (r: HashMap<u32, Vec<(u32, HeadSlot)>>)
    ensures
        groups_view(r@) == group_items(items_spec(text@)),
{
    broadcast use vstd::std_specs::hash::group_hash_axioms;

    let cs = crate::text::chars_of(text);
    let lines = crate::text::split_chars(&cs, '\n');
    let ghost ls = trimmed_lines(text@);
    let mut sc = Scanner { items: Vec::new(), id: None, view: None, slot: None, in_location: false };
    assert(sc.state().items =~= scan_start().items);
    for i in 0..lines.len()
        invariant
            crate::text::views(lines@) == crate::text::split_on(text@, '\n'),
            ls == trimmed_lines(text@),
            sc.state() == scan_lines(ls.take(i as int)),
    {
        let line = &lines[i];
        let (a, b) = crate::text::trim_range(line, 0, line.len());
        assert(line@.subrange(0, line@.len() as int) =~= line@);
        assert(ls[i as int] == line@.subrange(a as int, b as int));
        assert(ls.take(i + 1).drop_last() =~= ls.take(i as int));
        sc.step(line, a, b);
    }
    assert(ls.take(lines.len() as int) =~= ls);
    sc.flush();
    let items = sc.items;
    let ghost all = items@;
    let mut map: HashMap<u32, Vec<(u32, HeadSlot)>> = HashMap::new();
    assert(groups_view(map@) =~= group_items(all.take(0)));
    for i in 0..items.len()
        invariant
            all == items@,
            groups_view(map@) == group_items(all.take(i as int)),
    {
        let it = items[i];
        assert(all.take(i + 1).drop_last() =~= all.take(i as int));
        if it.view > 0 {
            let mut list = match map.remove(&it.view) {
                Some(l) => l,
                None => Vec::new(),
            };
            list.push((it.id, it.slot));
            map.insert(it.view, list);
            assert(groups_view(map@) =~= group_items(all.take(i + 1)));
        }
    }
    assert(all.take(items.len() as int) =~= all);
    map
}

} // verus!

verus! {

// ---------------------------------------------------------------------------
// Builder
// ---------------------------------------------------------------------------

/// The slots of a non-empty list combined from the left with `merge`.
pub open spec fn reduce_slots(s: Seq<HeadSlot>) -> HeadSlot
    decreases s.len(),
{
    if s.len() <= 1 {
        s[0]
    } else {
        reduce_slots(s.drop_last()).spec_merge(s.last())
    }
}

/// The canonical slot of a view's items: the slot all of them agree on, else `Mixed`;
/// the top slot when there is no item.
pub open spec fn canonical_slot(items: Seq<(u32, HeadSlot)>) -> HeadSlot {
    if items.len() == 0 {
        HeadSlot::Top
    } else {
        reduce_slots(items.map_values(|p: (u32, HeadSlot)| p.1))
    }
}

/// `x` put before the first element of `s` that is not smaller.
pub open spec fn insert_u32(s: Seq<u32>, x: u32) -> Seq<u32>
    decreases s.len(),
{
    if s.len() == 0 {
        seq![x]
    } else if x <= s[0] {
        seq![x] + s
    } else {
        seq![s[0]] + insert_u32(s.drop_first(), x)
    }
}

/// `s` in increasing order.
pub open spec fn sort_u32(s: Seq<u32>) -> Seq<u32>
    decreases s.len(),
{
    if s.len() == 0 {
        Seq::empty()
    } else {
        insert_u32(sort_u32(s.drop_last()), s.last())
    }
}

/// The entry for one view id.
pub open spec fn entry_spec(accname: Seq<char>, view: u32, list: Seq<(u32, HeadSlot)>) -> SlotEntryView {
    SlotEntryView {
        view,
        slot: slot_name(canonical_slot(list)),
        accname,
        items: sort_u32(list.map_values(|p: (u32, HeadSlot)| p.0)),
    }
}

/// The entries for the view ids `1..=n`: one for each view id that the map has,
/// with the accname at index `view - 1`.
pub open spec fn slot_entries(
    accnames: Seq<Seq<char>>,
    m: Map<u32, Seq<(u32, HeadSlot)>>,
    n: nat,
) -> Seq<SlotEntryView>
    decreases n,
{
    if n == 0 {
        Seq::empty()
    } else {
        let prev = slot_entries(accnames, m, (n - 1) as nat);
        if m.contains_key(n as u32) {
            prev.push(entry_spec(accnames[n - 1], n as u32, m[n as u32]))
        } else {
            prev
        }
    }
}

proof fn lemma_insert_u32_at(s: Seq<u32>, x: u32, p: int)
    requires
        0 <= p <= s.len(),
        forall|k: int| 0 <= k < p ==> #[trigger] s[k] < x,
        p == s.len() || x <= s[p],
    ensures
        insert_u32(s, x) == s.insert(p, x),
    decreases p,
{
    if p > 0 {
        assert forall|k: int| 0 <= k < p - 1 implies #[trigger] s.drop_first()[k] < x by {
            assert(s.drop_first()[k] == s[k + 1]);
        }
        lemma_insert_u32_at(s.drop_first(), x, p - 1);
        assert(seq![s[0]] + s.drop_first().insert(p - 1, x) =~= s.insert(p, x));
    } else {
        assert(seq![x] + s =~= s.insert(0, x));
    }
}

/// Sorts `v` in increasing order (insertion sort).
fn sort_ids(v: &Vec<u32>) -> (r: Vec<u32>)
    ensures
        r@ == sort_u32(v@),
{
    let mut r: Vec<u32> = Vec::new();
    for i in 0..v.len()
        invariant
            r@ == sort_u32(v@.take(i as int)),
    {
        let x = v[i];
        let mut p: usize = 0;
        while p < r.len() && r[p] < x
            invariant
                p <= r.len(),
                forall|k: int| 0 <= k < p ==> #[trigger] r@[k] < x,
            decreases r.len() - p,
        {
            p = p + 1;
        }
        proof {
            lemma_insert_u32_at(r@, x, p as int);
            assert(v@.take(i + 1).drop_last() =~= v@.take(i as int));
        }
        r.insert(p, x);
    }
    assert(v@.take(v.len() as int) =~= v@);
    r
}

/// Builds the headgear slots list by joining the accname table with the rAthena
/// headgear item map.
///
/// Only view ids that appear in `headgear_map` are emitted, in increasing order. View
/// ids present in `accnames` but absent from `headgear_map` are skipped (no item DB
/// entry, likely unused or unknown content).
pub fn build_headgear_slots(
    accnames: &[String],
    headgear_map: &HashMap<u32, Vec<(u32, HeadSlot)>>,
) -> (r: Vec<HeadgearSlotEntry>)
    requires
        accnames@.len() <= u32::MAX,
    ensures
        r@.map_values(|e: HeadgearSlotEntry| e@) == slot_entries(
            crate::text::string_views(accnames@),
            groups_view(headgear_map@),
            accnames@.len(),
        ),
{
    broadcast use vstd::std_specs::hash::group_hash_axioms;

    let ghost names = crate::text::string_views(accnames@);
    let ghost m = groups_view(headgear_map@);
    let mut out: Vec<HeadgearSlotEntry> = Vec::new();
    for zero_idx in 0..accnames.len()
        invariant
            accnames@.len() <= u32::MAX,
            names == crate::text::string_views(accnames@),
            m == groups_view(headgear_map@),
            out@.map_values(|e: HeadgearSlotEntry| e@) == slot_entries(names, m, zero_idx as nat),
    {
        let view_id = (zero_idx + 1) as u32;
        let ghost prev = out@.map_values(|e: HeadgearSlotEntry| e@);
        match headgear_map.get(&view_id) {
            None => {},
            Some(item_list) => {
                let ghost list = item_list@;
                let ghost slots = list.map_values(|p: (u32, HeadSlot)| p.1);
                // The canonical slot: the one all items agree on, else the top slot.
                let mut slot = HeadSlot::Top;
                if item_list.len() > 0 {
                    slot = item_list[0].1;
                    assert(slots.take(1) =~= seq![slots[0]]);
                    for j in 1..item_list.len()
                        invariant
                            list == item_list@,
                            slots == list.map_values(|p: (u32, HeadSlot)| p.1),
                            1 <= item_list.len(),
                            slot == reduce_slots(slots.take(j as int)),
                    {
                        assert(slots.take(j + 1).drop_last() =~= slots.take(j as int));
                        slot = slot.merge(item_list[j].1);
                    }
                    assert(slots.take(item_list.len() as int) =~= slots);
                }
                let slot_str = String::from_str(slot.as_str());
                let mut ids: Vec<u32> = Vec::new();
                for j in 0..item_list.len()
                    invariant
                        list == item_list@,
                        ids@ == list.map_values(|p: (u32, HeadSlot)| p.0).take(j as int),
                {
                    ids.push(item_list[j].0);
                    assert(ids@ =~= list.map_values(|p: (u32, HeadSlot)| p.0).take(j + 1));
                }
                assert(ids@ =~= list.map_values(|p: (u32, HeadSlot)| p.0));
                let items = sort_ids(&ids);
                let entry = HeadgearSlotEntry {
                    view: view_id,
                    slot: slot_str,
                    accname: accnames[zero_idx].clone(),
                    items,
                };
                assert(entry@ == entry_spec(names[zero_idx as int], view_id, m[view_id]));
                out.push(entry);
                assert(out@.map_values(|e: HeadgearSlotEntry| e@) =~= prev.push(entry@));
            },
        }
    }
    out
}

} // verus!

verus! {

// ---------------------------------------------------------------------------
// Laws
// ---------------------------------------------------------------------------

/// Merging slots is commutative and idempotent, and `Mixed` absorbs every slot.
pub proof fn law_merge(a: HeadSlot, b: HeadSlot)
    ensures
        a.spec_merge(b) == b.spec_merge(a),
        a.spec_merge(a) == a,
        a.spec_merge(HeadSlot::Mixed) == HeadSlot::Mixed,
{
}

/// A non-empty list reduces to its first slot when all slots are that one, else to `Mixed`.
proof fn lemma_reduce_slots(s: Seq<HeadSlot>)
    requires
        s.len() >= 1,
    ensures
        reduce_slots(s) == if forall|k: int| 0 <= k < s.len() ==> #[trigger] s[k] == s[0] {
            s[0]
        } else {
            HeadSlot::Mixed
        },
    decreases s.len(),
{
    if s.len() > 1 {
        let t = s.drop_last();
        lemma_reduce_slots(t);
        if forall|k: int| 0 <= k < t.len() ==> #[trigger] t[k] == t[0] {
            if s.last() == s[0] {
                assert forall|k: int| 0 <= k < s.len() implies #[trigger] s[k] == s[0] by {
                    if k < t.len() {
                        assert(t[k] == s[k]);
                    }
                }
            }
        } else {
            let k = choose|k: int| 0 <= k < t.len() && #[trigger] t[k] != t[0];
            assert(s[k] != s[0]);
        }
    }
}

/// The canonical slot of a view: the top slot when there is no item, the common slot
/// when all items agree, and `Mixed` (written as the top slot) when two items differ.
pub proof fn law_canonical_slot(items: Seq<(u32, HeadSlot)>)
    ensures
        items.len() == 0 ==> canonical_slot(items) == HeadSlot::Top,
        items.len() > 0 && (forall|k: int| 0 <= k < items.len() ==> #[trigger] items[k].1 == items[0].1)
            ==> canonical_slot(items) == items[0].1,
        (exists|i: int, j: int| 0 <= i < items.len() && 0 <= j < items.len() && #[trigger] items[i].1
            != #[trigger] items[j].1) ==> canonical_slot(items) == HeadSlot::Mixed,
        slot_name(HeadSlot::Mixed) == slot_name(HeadSlot::Top),
{
    if items.len() > 0 {
        let s = items.map_values(|p: (u32, HeadSlot)| p.1);
        lemma_reduce_slots(s);
        if forall|k: int| 0 <= k < items.len() ==> #[trigger] items[k].1 == items[0].1 {
            assert forall|k: int| 0 <= k < s.len() implies #[trigger] s[k] == s[0] by {
                assert(items[k].1 == items[0].1);
            }
        }
        if exists|i: int, j: int| 0 <= i < items.len() && 0 <= j < items.len() && #[trigger] items[i].1
            != #[trigger] items[j].1 {
            let (i, j) = choose|i: int, j: int| 0 <= i < items.len() && 0 <= j < items.len() && #[trigger] items[i].1
                != #[trigger] items[j].1;
            assert(s[i] != s[j]);
            if s[i] == s[0] {
                assert(s[j] != s[0]);
            } else {
                assert(s[i] != s[0]);
            }
        }
    }
}

/// Non-decreasing.
pub open spec fn sorted_u32(s: Seq<u32>) -> bool {
    forall|i: int, j: int| 0 <= i <= j < s.len() ==> #[trigger] s[i] <= #[trigger] s[j]
}

proof fn lemma_insert_u32(s: Seq<u32>, x: u32)
    requires
        sorted_u32(s),
    ensures
        sorted_u32(insert_u32(s, x)),
        insert_u32(s, x).to_multiset() == s.to_multiset().insert(x),
    decreases s.len(),
{
    broadcast use vstd::seq_lib::group_to_multiset_ensures;

    if s.len() == 0 {
        assert(insert_u32(s, x) =~= seq![x]);
        assert(seq![x] =~= Seq::<u32>::empty().push(x));
    } else if x <= s[0] {
        assert(seq![x] + s =~= s.insert(0, x));
        vstd::seq_lib::to_multiset_insert(s, 0, x);
    } else {
        let t = s.drop_first();
        assert(sorted_u32(t)) by {
            assert forall|i: int, j: int| 0 <= i <= j < t.len() implies #[trigger] t[i] <= #[trigger] t[j] by {
                assert(t[i] == s[i + 1] && t[j] == s[j + 1]);
            }
        }
        lemma_insert_u32(t, x);
        let r = insert_u32(t, x);
        assert(r.to_multiset().contains(x));
        assert forall|i: int, j: int| 0 <= i <= j < (seq![s[0]] + r).len() implies #[trigger] (seq![
            s[0],
        ] + r)[i] <= #[trigger] (seq![s[0]] + r)[j] by {
            if i == 0 && j > 0 {
                let y = r[j - 1];
                assert(r.to_multiset().contains(y));
                assert(s.to_multiset().insert(x).contains(y));
                if y != x {
                    assert(t.to_multiset().contains(y));
                    let k = choose|k: int| 0 <= k < t.len() && t[k] == y;
                    assert(s[k + 1] == y);
                }
            }
        }
        assert(s =~= seq![s[0]] + t);
        assert(seq![s[0]] + r =~= r.insert(0, s[0]));
        vstd::seq_lib::to_multiset_insert(r, 0, s[0]);
        vstd::seq_lib::to_multiset_insert(t, 0, s[0]);
        assert(t.insert(0, s[0]) =~= s);
    }
}

/// The item ids of an entry are in increasing order, and are exactly the ids that the
/// map gives (as a multiset).
pub proof fn law_sort_u32(s: Seq<u32>)
    ensures
        sorted_u32(sort_u32(s)),
        sort_u32(s).to_multiset() == s.to_multiset(),
    decreases s.len(),
{
    broadcast use vstd::seq_lib::group_to_multiset_ensures;

    if s.len() > 0 {
        law_sort_u32(s.drop_last());
        lemma_insert_u32(sort_u32(s.drop_last()), s.last());
        assert(s.drop_last().push(s.last()) =~= s);
    }
}

/// The slots file is sorted by view id, with one entry per view id of `1..=n` that the
/// map has, each built from the accname at index `view - 1` and the map's items.
pub proof fn law_slot_entries(
    accnames: Seq<Seq<char>>,
    m: Map<u32, Seq<(u32, HeadSlot)>>,
    n: nat,
)
    requires
        n <= u32::MAX,
        n <= accnames.len(),
    ensures
        forall|i: int, j: int|
            0 <= i < j < slot_entries(accnames, m, n).len() ==> #[trigger] slot_entries(
                accnames,
                m,
                n,
            )[i].view < #[trigger] slot_entries(accnames, m, n)[j].view,
        forall|i: int|
            0 <= i < slot_entries(accnames, m, n).len() ==> {
                let e = #[trigger] slot_entries(accnames, m, n)[i];
                &&& 1 <= e.view <= n
                &&& m.contains_key(e.view)
                &&& e == entry_spec(accnames[e.view - 1], e.view, m[e.view])
            },
        forall|v: u32|
            1 <= v <= n && #[trigger] m.contains_key(v) ==> exists|i: int|
                0 <= i < slot_entries(accnames, m, n).len() && #[trigger] slot_entries(
                    accnames,
                    m,
                    n,
                )[i].view == v,
    decreases n,
{
    if n > 0 {
        let p = (n - 1) as nat;
        law_slot_entries(accnames, m, p);
        let prev = slot_entries(accnames, m, p);
        let e = slot_entries(accnames, m, n);
        if m.contains_key(n as u32) {
            assert(e == prev.push(entry_spec(accnames[n - 1], n as u32, m[n as u32])));
            assert forall|v: u32| 1 <= v <= n && #[trigger] m.contains_key(v) implies exists|i: int|
                0 <= i < e.len() && #[trigger] e[i].view == v by {
                if v == n {
                    assert(e[e.len() - 1].view == v);
                } else {
                    let i = choose|i: int| 0 <= i < prev.len() && #[trigger] prev[i].view == v;
                    assert(e[i].view == v);
                }
            }
        } else {
            assert forall|v: u32| 1 <= v <= n && #[trigger] m.contains_key(v) implies exists|i: int|
                0 <= i < e.len() && #[trigger] e[i].view == v by {
                assert(v != n);
                let i = choose|i: int| 0 <= i < prev.len() && #[trigger] prev[i].view == v;
                assert(e[i].view == v);
            }
        }
    }
}

/// Every group of the item map has a view id above 0 and at least one item.
pub proof fn law_group_items(items: Seq<HeadgearItem>)
    ensures
        forall|v: u32| #[trigger] group_items(items).contains_key(v) ==> v > 0 && group_items(
            items,
        )[v].len() > 0,
    decreases items.len(),
{
    if items.len() > 0 {
        law_group_items(items.drop_last());
        let m = group_items(items.drop_last());
        let it = items.last();
        if it.view > 0 {
            let prev = if m.contains_key(it.view) {
                m[it.view]
            } else {
                Seq::empty()
            };
            let g = m.insert(it.view, prev.push((it.id, it.slot)));
            assert(g == group_items(items));
            assert forall|v: u32| #[trigger] g.contains_key(v) implies v > 0 && g[v].len() > 0 by {
                if v != it.view {
                    assert(m.contains_key(v));
                }
            }
        }
    }
}

/// The names read from `accname_eng.lub` are distinct, and each is a lowercase
/// accname: a lowercase letter followed by one or more lowercase letters, digits
/// or `_`.
pub proof fn law_accnames(data: Seq<u8>)
    ensures
        lub_scan(data).1.no_duplicates(),
        forall|i: int|
            0 <= i < lub_scan(data).1.len() ==> lowercase_name(#[trigger] lub_scan(data).1[i]),
    decreases data.len(),
{
    if data.len() > 0 {
        law_accnames(data.drop_last());
        let (buf, names) = lub_scan(data.drop_last());
        if data.last() == 0 && accname_pattern(buf) && !names.contains(accname_name(buf)) {
            let n = accname_name(buf);
            assert forall|k: int| 1 <= k < n.len() implies is_lower(#[trigger] n[k]) || is_digit(n[k])
                || n[k] == 0x5f by {
                assert(n[k] == ascii_lower(buf[k + 1]));
                assert(is_upper(buf[k + 1]) || is_digit(buf[k + 1]) || buf[k + 1] == 0x5f);
            }
            assert(n[0] == ascii_lower(buf[1]));
            assert(lowercase_name(n));
            let names2 = names.push(n);
            assert forall|i: int| 0 <= i < names2.len() implies lowercase_name(#[trigger] names2[i]) by {
                if i < names.len() {
                    assert(names2[i] == names[i]);
                }
            }
        }
    }
}

/// A lowercase letter.
pub open spec fn is_lower(b: u8) -> bool {
    0x61 <= b <= 0x7a
}

/// `[a-z][a-z0-9_]+`.
pub open spec fn lowercase_name(n: Seq<u8>) -> bool {
    &&& n.len() >= 2
    &&& is_lower(n[0])
    &&& forall|k: int| 1 <= k < n.len() ==> is_lower(#[trigger] n[k]) || is_digit(n[k]) || n[k] == 0x5f
}

} // verus!

verus! {

proof fn lemma_no_view_block(ls1: Seq<Seq<char>>, ls2: Seq<Seq<char>>, k: int)
    requires
        1 <= k <= ls2.len(),
        starts_with(ls2[0], id_key()),
        forall|i: int|
            1 <= i < ls2.len() ==> !starts_with(#[trigger] ls2[i], id_key()) && !starts_with(
                ls2[i],
                view_key(),
            ),
    ensures
        scan_lines(ls1 + ls2.take(k)).items == flush(scan_lines(ls1)),
        scan_lines(ls1 + ls2.take(k)).view is None,
    decreases k,
{
    assert((ls1 + ls2.take(k)).drop_last() =~= ls1 + ls2.take(k - 1));
    assert((ls1 + ls2.take(k)).last() == ls2[k - 1]);
    if k == 1 {
        assert(ls1 + ls2.take(0) =~= ls1);
        assert(!starts_with(ls2[0], view_key())) by {
            assert(ls2[0][0] == id_key()[0]);
        }
    } else {
        lemma_no_view_block(ls1, ls2, k - 1);
        assert(!starts_with(ls2[k - 1], id_key()));
        assert(!starts_with(ls2[k - 1], view_key()));
    }
}

/// An item whose block has no `View:` line is left out. Take any lines, then the block
/// of one item: its `- Id:` line and further lines none of which starts a new item or
/// is a `View:` line. The items read after the block are those read after the earlier
/// lines (the item before the block is completed, the block's item is not added), and
/// the block's item has no view: a view is never carried over from the item before.
pub proof fn law_item_without_view_dropped(ls1: Seq<Seq<char>>, ls2: Seq<Seq<char>>)
    requires
        ls2.len() >= 1,
        starts_with(ls2[0], id_key()),
        forall|i: int|
            1 <= i < ls2.len() ==> !starts_with(#[trigger] ls2[i], id_key()) && !starts_with(
                ls2[i],
                view_key(),
            ),
    ensures
        flush(scan_lines(ls1 + ls2)) == flush(scan_lines(ls1)),
        scan_lines(ls1 + ls2).view is None,
{
    lemma_no_view_block(ls1, ls2, ls2.len() as int);
    assert(ls2.take(ls2.len() as int) =~= ls2);
}

} // verus!

verus! {

/// What each entry of the slots table says of its view's items, in terms of the map
/// alone: its accname is the one at index `view - 1`; its slot is "Head_Top" when the
/// view has no item or two of its items disagree, and the items' common slot when they
/// all agree; its item ids are those of the view's items, in increasing order.
pub proof fn law_slot_entry_fields(
    accnames: Seq<Seq<char>>,
    m: Map<u32, Seq<(u32, HeadSlot)>>,
    n: nat,
    i: int,
)
    requires
        n <= u32::MAX,
        n <= accnames.len(),
        0 <= i < slot_entries(accnames, m, n).len(),
    ensures
        ({
            let e = slot_entries(accnames, m, n)[i];
            let l = m[e.view];
            &&& m.contains_key(e.view)
            &&& 1 <= e.view <= n
            &&& e.accname == accnames[e.view - 1]
            &&& l.len() == 0 ==> e.slot == "Head_Top"@
            &&& (exists|j: int, k: int|
                0 <= j < l.len() && 0 <= k < l.len() && #[trigger] l[j].1 != #[trigger] l[k].1)
                ==> e.slot == "Head_Top"@
            &&& (l.len() > 0 && forall|j: int| 0 <= j < l.len() ==> #[trigger] l[j].1 == l[0].1)
                ==> e.slot == match l[0].1 {
                HeadSlot::Top | HeadSlot::Mixed => "Head_Top"@,
                HeadSlot::Mid => "Head_Mid"@,
                HeadSlot::Low => "Head_Low"@,
            }
            &&& sorted_u32(e.items)
            &&& e.items.to_multiset() == l.map_values(|p: (u32, HeadSlot)| p.0).to_multiset()
        }),
{
    law_slot_entries(accnames, m, n);
    let e = slot_entries(accnames, m, n)[i];
    let l = m[e.view];
    law_canonical_slot(l);
    law_sort_u32(l.map_values(|p: (u32, HeadSlot)| p.0));
}

} // verus!

verus! {

/// A `- Id:` line starts a new item: the item before it is completed (added when it has
/// an id, a view and a slot), and the new item has the id that the line gives (the text
/// before any `#`, trimmed, read as a `u32`), no view, no slot, and is outside any
/// `Locations:` block; nothing of the item before is carried over.
pub proof fn law_id_line_starts_item(ls: Seq<Seq<char>>, s: Seq<char>)
    requires
        starts_with(s, id_key()),
    ensures
        ({
            let before = scan_lines(ls);
            let after = scan_lines(ls.push(s));
            &&& after.items == match (before.id, before.view, before.slot) {
                (Some(id), Some(view), Some(slot)) => before.items.push(
                    HeadgearItem { id, view, slot },
                ),
                _ => before.items,
            }
            &&& after.id == crate::text::parse_u32_spec(
                crate::text::trim(crate::text::before_first(s.skip(5), '#')),
            )
            &&& after.view is None
            &&& after.slot is None
            &&& !after.in_location
        }),
{
    assert(ls.push(s).drop_last() =~= ls);
    assert(!starts_with(s, view_key())) by {
        assert(s[0] == id_key()[0]);
    }
}

} // verus!

verus! {

/// Inside a `Locations:` block, a `Head_Top:`, `Head_Mid:` or `Head_Low:` line sets the
/// item's slot when it had none, keeps it when it is the same slot, and makes it
/// `Mixed` when it differs; a blank line or a `#` comment keeps the block open; any
/// other line (that starts no item and is not `Locations:`) closes it. Outside a block
/// the head lines change nothing.
pub proof fn law_locations_block(ls: Seq<Seq<char>>, s: Seq<char>, h: HeadSlot)
    requires
        h != HeadSlot::Mixed,
        starts_with(s, match h {
            HeadSlot::Top => top_key(),
            HeadSlot::Mid => mid_key(),
            _ => low_key(),
        }),
    ensures
        ({
            let before = scan_lines(ls);
            let after = scan_lines(ls.push(s));
            &&& before.in_location ==> after.slot == Some(
                match before.slot {
                    Some(x) => if x == h {
                        h
                    } else {
                        HeadSlot::Mixed
                    },
                    None => h,
                },
            )
            &&& !before.in_location ==> after.slot == before.slot
            &&& after.in_location == before.in_location
            &&& after.items == before.items
            &&& after.id == before.id
            &&& after.view == before.view
        }),
{
    assert(ls.push(s).drop_last() =~= ls);
    assert(s[0] == 'H');
    assert(!starts_with(s, id_key())) by {
        assert(id_key()[0] == '-');
    }
    assert(!starts_with(s, view_key())) by {
        assert(view_key()[0] == 'V');
    }
    assert(s != locations_key()) by {
        assert(locations_key()[0] == 'L');
    }
    assert(s[5] == match h {
        HeadSlot::Top => 'T',
        HeadSlot::Mid => 'M',
        _ => 'L',
    });
}

/// Inside a `Locations:` block, a blank line or a `#` comment keeps the block open, and
/// any other line that is not a head line, does not start an item and is not
/// `Locations:` closes it.
pub proof fn law_locations_block_end(ls: Seq<Seq<char>>, s: Seq<char>)
    requires
        scan_lines(ls).in_location,
        !starts_with(s, id_key()),
        s != locations_key(),
        !starts_with(s, top_key()),
        !starts_with(s, mid_key()),
        !starts_with(s, low_key()),
    ensures
        scan_lines(ls.push(s)).in_location <==> (s.len() == 0 || s[0] == '#'),
        scan_lines(ls.push(s)).slot == scan_lines(ls).slot,
        scan_lines(ls.push(s)).items == scan_lines(ls).items,
{
    assert(ls.push(s).drop_last() =~= ls);
    if s.len() > 0 {
        assert(starts_with(s, seq!['#']) <==> s[0] == '#') by {
            assert(s.take(1)[0] == s[0]);
            assert(seq!['#'][0] == '#');
            if s[0] == '#' {
                assert(s.take(1) =~= seq!['#']);
            }
        }
    }
}

} // verus!

verus! {

/// The item map, in terms of the items alone: a view id is a key exactly when it is above
/// 0 and some item has it, and its list holds the (id, slot) of the items with that view,
/// in file order.
pub proof fn law_group_items_exact(items: Seq<HeadgearItem>)
    ensures
        forall|v: u32|
            #[trigger] group_items(items).contains_key(v) <==> (v > 0 && exists|i: int|
                0 <= i < items.len() && #[trigger] items[i].view == v),
        forall|v: u32|
            #[trigger] group_items(items).contains_key(v) ==> group_items(items)[v] == items.filter(
                |it: HeadgearItem| it.view == v,
            ).map_values(|it: HeadgearItem| (it.id, it.slot)),
    decreases items.len(),
{
    reveal(Seq::filter);
    if items.len() > 0 {
        let init = items.drop_last();
        let it = items.last();
        law_group_items_exact(init);
        let m = group_items(init);
        let g = group_items(items);
        assert(items =~= init.push(it));
        assert forall|v: u32| #[trigger] g.contains_key(v) <==> (v > 0 && exists|i: int|
            0 <= i < items.len() && #[trigger] items[i].view == v) by {
            if v > 0 && exists|i: int| 0 <= i < items.len() && #[trigger] items[i].view == v {
                let i = choose|i: int| 0 <= i < items.len() && #[trigger] items[i].view == v;
                if i < init.len() {
                    assert(init[i].view == v);
                }
            }
            if m.contains_key(v) {
                let i = choose|i: int| 0 <= i < init.len() && #[trigger] init[i].view == v;
                assert(items[i].view == v);
            }
            if it.view == v && v > 0 {
                assert(items[items.len() - 1].view == v);
            }
        }
        assert forall|v: u32| #[trigger] g.contains_key(v) implies g[v] == items.filter(
            |x: HeadgearItem| x.view == v,
        ).map_values(|x: HeadgearItem| (x.id, x.slot)) by {
            init.lemma_filter_push(it, |x: HeadgearItem| x.view == v);
            let f0 = init.filter(|x: HeadgearItem| x.view == v);
            if it.view == v {
                assert(f0.push(it).map_values(|x: HeadgearItem| (x.id, x.slot)) =~= f0.map_values(
                    |x: HeadgearItem| (x.id, x.slot),
                ).push((it.id, it.slot)));
                if !m.contains_key(v) {
                    assert(f0.len() == 0) by {
                        if f0.len() > 0 {
                            assert(f0.contains(f0[0]));
                            init.lemma_filter_contains_rev(|x: HeadgearItem| x.view == v, f0[0]);
                            assert(f0[0].view == v);
                            let k = choose|k: int| 0 <= k < init.len() && init[k] == f0[0];
                            assert(init[k].view == v);
                        }
                    }
                    assert(f0.map_values(|x: HeadgearItem| (x.id, x.slot)) =~= Seq::<
                        (u32, HeadSlot),
                    >::empty());
                }
            }
        }
    }
}

} // verus!
