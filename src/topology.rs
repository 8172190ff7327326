//! How many logical and physical cores the system has, read from the text of
//! the kernel's topology files.
use vstd::prelude::*;
use std::collections::BTreeSet;
use vstd::std_specs::iter::IteratorSpec;
use vstd::std_specs::cmp::OrdSpec;
use crate::text::{
    decimal, decimal_of, is_digit, is_numeral, is_white_space, lemma_decimal_reads_back, numeral_value,
    parse_u32, trim_end, trimmed_end, u32_of,
};

verus! {

/// Why the topology files could not be understood.
#[derive(Debug, Clone, Copy, PartialEq, Eq, Structural)]
pub enum TopologyError {
    /// The online-core range is not of the form `<min>-<max>`, or `<max> + 1`
    /// does not fit in 32 bits.
    MalformedOnline,
    /// A sibling list is not a comma-separated list of core ids.
    MalformedSiblings,
    /// There is not one sibling list for each logical core.
    MissingSiblings,
}

/// SMT is on exactly when the control file says `on`.
pub open spec fn smt_on(control: Seq<char>) -> bool {
    trimmed_end(control) == "on"@
}

/// Reads the SMT control file's text.
pub fn smt_enabled_from(control: &str) -> (r: bool)
    ensures
        r == smt_on(control@),
{
    let t = trim_end(control);
    proof {
        reveal_strlit("on");
    }
    let n = t.unicode_len();
    if n != 2 {
        return false;
    }
    let a = t.get_char(0);
    let b = t.get_char(1);
    if a == 'o' && b == 'n' {
        assert(t@ =~= "on"@);
        true
    } else {
        assert(t@ != "on"@) by {
            if t@ == "on"@ {
                assert(t@[0] == 'o' && t@[1] == 'n');
            }
        }
        false
    }
}

/// `k` is the position of the first `c` in `t`.
pub open spec fn is_first(t: Seq<char>, c: char, k: int) -> bool {
    0 <= k < t.len() && t[k] == c && forall|j: int| 0 <= j < k ==> t[j] != c
}

/// The largest online core id of a `<min>-<max>` range, if the text is one.
pub open spec fn online_max_of(s: Seq<char>) -> Option<u32> {
    let t = trimmed_end(s);
    if exists|k: int| is_first(t, '-', k) {
        let k = choose|k: int| is_first(t, '-', k);
        u32_of(t.subrange(k + 1, t.len() as int))
    } else {
        None
    }
}

/// The logical core count that the online-core range gives.
pub open spec fn logical_count_of(s: Seq<char>) -> Result<u32, TopologyError> {
    match online_max_of(s) {
        Some(n) => if n < u32::MAX {
            Ok((n + 1) as u32)
        } else {
            Err(TopologyError::MalformedOnline)
        },
        None => Err(TopologyError::MalformedOnline),
    }
}

/// Reads the online-core range `<min>-<max>`: the logical core count is
/// `<max> + 1`. Fragmented ranges such as `0-3,6-7` are refused.
pub fn parse_online(online: &str) -> (r: Result<u32, TopologyError>)
    ensures
        r == logical_count_of(online@),
{
    let t = trim_end(online);
    let len = t.unicode_len();
    let mut k: usize = 0;
    let mut found = false;
    while k < len && !found
        invariant
            len == t@.len(),
            k <= len,
            found ==> k < len && t@[k as int] == '-',
            forall|j: int| 0 <= j < k ==> t@[j] != '-',
        decreases (len - k) * 2 + (if found { 0int } else { 1int }),
    {
        if t.get_char(k) == '-' {
            found = true;
        } else {
            k = k + 1;
        }
    }
    if !found {
        assert(!exists|j: int| is_first(t@, '-', j));
        return Err(TopologyError::MalformedOnline);
    }
    assert(is_first(t@, '-', k as int));
    let ghost chosen = choose|j: int| is_first(t@, '-', j);
    assert(chosen == k) by {
        if chosen < k {
            assert(t@[chosen] == '-');
        } else if chosen > k {
            assert(t@[k as int] == '-');
        }
    }
    match parse_u32(t, k + 1, len) {
        Some(n) => if n < 0xFFFF_FFFF {
            Ok(n + 1)
        } else {
            Err(TopologyError::MalformedOnline)
        },
        None => Err(TopologyError::MalformedOnline),
    }
}

/// The comma-separated fields of `s`; an empty text has one empty field.
pub open spec fn split_commas(s: Seq<char>) -> Seq<Seq<char>>
    decreases s.len(),
{
    if s.len() == 0 {
        seq![Seq::<char>::empty()]
    } else {
        let p = split_commas(s.drop_last());
        if s.last() == ',' {
            p.push(Seq::<char>::empty())
        } else {
            p.update(p.len() - 1, p.last().push(s.last()))
        }
    }
}

/// Every field is a core id.
pub open spec fn fields_parse(f: Seq<Seq<char>>) -> bool {
    forall|j: int| 0 <= j < f.len() ==> (#[trigger] u32_of(f[j])) is Some
}

/// `m` is the least core id among the fields.
pub open spec fn is_least_field(f: Seq<Seq<char>>, m: u32) -> bool {
    &&& exists|j: int| 0 <= j < f.len() && u32_of(f[j]) == Some(m)
    &&& forall|j: int| 0 <= j < f.len() ==> m <= (#[trigger] u32_of(f[j])).unwrap()
}

/// The least id of a sibling list: the index of the physical core that the
/// listed logical cores share.
pub open spec fn sibling_min_of(s: Seq<char>) -> Option<u32> {
    let f = split_commas(trimmed_end(s));
    if fields_parse(f) {
        Some(choose|m: u32| is_least_field(f, m))
    } else {
        None
    }
}

/// Reads a sibling list such as `0,4` and returns its least core id.
pub fn least_sibling(list: &str) -> (r: Result<u32, TopologyError>)
    ensures
        r == (match sibling_min_of(list@) {
            Some(m) => Ok(m),
            None => Err(TopologyError::MalformedSiblings),
        }),
{
    let t = trim_end(list);
    let len = t.unicode_len();
    // over the fields already closed by a comma
    let mut bad = false;
    let mut has_min = false;
    let mut min: u32 = 0;
    // over the field being read
    let mut digits = true;
    let mut empty = true;
    let mut too_large = false;
    let mut value: u64 = 0;
    let mut i: usize = 0;
    while i < len
        invariant
            len == t@.len(),
            i <= len,
            field_state(split_commas(t@.subrange(0, i as int)), digits, empty, too_large, value),
            closed_state(split_commas(t@.subrange(0, i as int)), bad, has_min, min),
        decreases len - i,
    {
        let ghost f = split_commas(t@.subrange(0, i as int));
        let c = t.get_char(i);
        proof {
            assert(t@.subrange(0, i + 1).drop_last() =~= t@.subrange(0, i as int));
        }
        let ghost g = split_commas(t@.subrange(0, i + 1));
        if c == ',' {
            proof {
                lemma_close_field(f, digits, empty, too_large, value);
            }
            let ghost old_min = min;
            let ghost old_bad = bad;
            if digits && !empty && !too_large {
                let v = value as u32;
                if !has_min || v < min {
                    min = v;
                }
                has_min = true;
            } else {
                bad = true;
            }
            proof {
                assert(g == f.push(Seq::<char>::empty()));
                assert forall|j: int| 0 <= j < g.len() - 1 implies g[j] == f[j] by {}
                if !bad {
                    assert forall|j: int| 0 <= j < g.len() - 1 implies (#[trigger] u32_of(g[j])) is Some by {
                        assert(g[j] == f[j]);
                        if j < f.len() - 1 {
                            assert(u32_of(f[j]) is Some);
                        }
                    }
                    assert forall|j: int| 0 <= j < g.len() - 1 implies min <= (#[trigger] u32_of(g[j])).unwrap() by {
                        assert(g[j] == f[j]);
                        if j < f.len() - 1 {
                            assert(u32_of(f[j]) is Some);
                        }
                    }
                    if min == value as u32 {
                        assert(u32_of(g[f.len() - 1]) == Some(min));
                    } else {
                        let j = choose|j: int| 0 <= j < f.len() - 1 && u32_of(f[j]) == Some(old_min);
                        assert(u32_of(g[j]) == Some(min));
                    }
                } else if !old_bad {
                    assert(u32_of(g[f.len() - 1]) is None);
                } else {
                    let j = choose|j: int| 0 <= j < f.len() - 1 && !(#[trigger] u32_of(f[j]) is Some);
                    assert(u32_of(g[j]) is None);
                }
            }
            digits = true;
            empty = true;
            too_large = false;
            value = 0;
            proof {
                assert(g == f.push(Seq::<char>::empty()));
                assert(g.last() =~= Seq::<char>::empty());
                assert forall|j: int| 0 <= j < f.len() implies g[j] == f[j] by {}
            }
        } else {
            proof {
                assert(g == f.update(f.len() - 1, f.last().push(c)));
                assert(g.last().drop_last() =~= f.last());
                assert forall|j: int| 0 <= j < f.len() - 1 implies g[j] == f[j] by {}
            }
            empty = false;
            if !('0' <= c && c <= '9') {
                digits = false;
                assert(!is_digit(g.last()[g.last().len() - 1]));
            } else if digits && !too_large {
                value = value * 10 + (c as u32 - '0' as u32) as u64;
                if value > 0xFFFF_FFFF {
                    too_large = true;
                }
            }
        }
        i = i + 1;
    }
    proof {
        assert(t@.subrange(0, len as int) =~= t@);
    }
    let ghost f = split_commas(t@);
    proof {
        lemma_close_field(f, digits, empty, too_large, value);
    }
    if bad || !(digits && !empty && !too_large) {
        return Err(TopologyError::MalformedSiblings);
    }
    let v = value as u32;
    if !has_min || v < min {
        min = v;
    }
    proof {
        assert(is_least_field(f, min)) by {
            if min == v {
                assert(u32_of(f[f.len() - 1]) == Some(min));
            } else {
                let j = choose|j: int| 0 <= j < f.len() - 1 && u32_of(f[j]) == Some(min);
                assert(u32_of(f[j]) == Some(min));
            }
        }
        let m = choose|m: u32| is_least_field(f, m);
        let j = choose|j: int| 0 <= j < f.len() && u32_of(f[j]) == Some(m);
        let k = choose|k: int| 0 <= k < f.len() && u32_of(f[k]) == Some(min);
        assert(min <= m && m <= min) by {
            assert(min <= u32_of(f[j]).unwrap());
            assert(m <= u32_of(f[k]).unwrap());
        }
    }
    Ok(min)
}

/// What the scan knows of the last, still open field of `f`.
spec fn field_state(f: Seq<Seq<char>>, digits: bool, empty: bool, too_large: bool, value: u64) -> bool {
    &&& f.len() >= 1
    &&& digits == (forall|c: int| 0 <= c < f.last().len() ==> is_digit(#[trigger] f.last()[c]))
    &&& empty == (f.last().len() == 0)
    &&& digits && !too_large ==> value == numeral_value(f.last()) && value <= u32::MAX
    &&& digits && too_large ==> numeral_value(f.last()) > u32::MAX
}

/// What the scan knows of the fields of `f` that a comma has closed.
spec fn closed_state(f: Seq<Seq<char>>, bad: bool, has_min: bool, min: u32) -> bool {
    &&& bad == !(forall|j: int| 0 <= j < f.len() - 1 ==> (#[trigger] u32_of(f[j])) is Some)
    &&& !bad ==> has_min == (f.len() > 1)
    &&& !bad && has_min ==> (exists|j: int| 0 <= j < f.len() - 1 && u32_of(f[j]) == Some(min))
    &&& !bad ==> forall|j: int| 0 <= j < f.len() - 1 ==> min <= (#[trigger] u32_of(f[j])).unwrap()
}

proof fn lemma_close_field(f: Seq<Seq<char>>, digits: bool, empty: bool, too_large: bool, value: u64)
    requires
        field_state(f, digits, empty, too_large, value),
    ensures
        (u32_of(f.last()) is Some) == (digits && !empty && !too_large),
        digits && !empty && !too_large ==> u32_of(f.last()) == Some(value as u32),
{
    if !digits {
        let c = choose|c: int| 0 <= c < f.last().len() && !is_digit(#[trigger] f.last()[c]);
        assert(!is_numeral(f.last()));
    }
}


/// Every sibling list has a least core id.
pub open spec fn all_lists_parse(lists: Seq<Seq<char>>) -> bool {
    forall|i: int| 0 <= i < lists.len() ==> (#[trigger] sibling_min_of(lists[i])) is Some
}

/// The physical core count: the logical count without SMT; with it, the
/// number of different least ids among the sibling lists of the logical cores.
pub open spec fn physical_count_of(smt: bool, logical: u32, lists: Seq<Seq<char>>) -> Result<u32, TopologyError> {
    if !smt {
        Ok(logical)
    } else if lists.len() != logical {
        Err(TopologyError::MissingSiblings)
    } else if !all_lists_parse(lists) {
        Err(TopologyError::MalformedSiblings)
    } else {
        Ok(Seq::new(lists.len(), |i: int| sibling_min_of(lists[i]).unwrap()).to_set().len() as u32)
    }
}

/// The text of each string.
pub open spec fn texts(lists: Seq<String>) -> Seq<Seq<char>> {
    lists.map_values(|s: String| s@)
}

/// The index of each physical core: the least id of its sibling lists, or,
/// without SMT, each logical core's own id.
pub open spec fn core_ids_of(smt: bool, logical: u32, lists: Seq<Seq<char>>) -> Set<u32> {
    if !smt {
        Set::new(|m: u32| m < logical)
    } else {
        Seq::new(lists.len(), |i: int| sibling_min_of(lists[i]).unwrap()).to_set()
    }
}

/// Strictly ascending.
pub open spec fn ascending(ids: Seq<u32>) -> bool {
    forall|i: int, j: int| 0 <= i < j < ids.len() ==> ids[i] < ids[j]
}

/// The physical core indices in ascending order. `sibling_lists[i]` is the
/// sibling list of logical core `i`; without SMT the lists are not looked at
/// and the indices are `0..logical`.
pub fn physical_core_ids(smt_enabled: bool, logical: u32, sibling_lists: &Vec<String>) -> (r: Result<Vec<u32>, TopologyError>)
    ensures
        r is Err <==> physical_count_of(smt_enabled, logical, texts(sibling_lists@)) is Err,
        r matches Err(e) ==> physical_count_of(smt_enabled, logical, texts(sibling_lists@)) == Err::<u32, TopologyError>(e),
        r matches Ok(ids) ==> {
            &&& ids@.to_set() == core_ids_of(smt_enabled, logical, texts(sibling_lists@))
            &&& ascending(ids@)
            &&& ids@.len() <= logical
            &&& !smt_enabled ==> ids@ == Seq::new(logical as nat, |i: int| i as u32)
        },
{
    if !smt_enabled {
        let mut ids: Vec<u32> = Vec::new();
        let mut core: u32 = 0;
        while core < logical
            invariant
                core <= logical,
                ids@ == Seq::new(core as nat, |i: int| i as u32),
            decreases logical - core,
        {
            ids.push(core);
            core = core + 1;
            assert(ids@ =~= Seq::new(core as nat, |i: int| i as u32));
        }
        assert forall|m: u32| #[trigger] ids@.to_set().contains(m) <==> m < logical by {
            if m < logical {
                assert(ids@[m as int] == m);
            }
        }
        assert(ids@.to_set() =~= Set::new(|m: u32| m < logical));
        return Ok(ids);
    }
    let ghost lists = texts(sibling_lists@);
    if sibling_lists.len() != logical as usize {
        return Err(TopologyError::MissingSiblings);
    }
    let mut mins: Vec<u32> = Vec::new();
    let mut i: usize = 0;
    while i < sibling_lists.len()
        invariant
            smt_enabled,
            lists == texts(sibling_lists@),
            sibling_lists@.len() == logical,
            i <= sibling_lists@.len(),
            mins@.len() == i,
            forall|k: int| 0 <= k < i ==> sibling_min_of(lists[k]) == Some(#[trigger] mins@[k]),
        decreases sibling_lists@.len() - i,
    {
        assert(lists[i as int] == sibling_lists@[i as int]@);
        match least_sibling(sibling_lists[i].as_str()) {
            Ok(m) => {
                mins.push(m);
            },
            Err(e) => {
                assert(lists.len() == logical);
                assert(sibling_min_of(lists[i as int]) is None);
                assert(!all_lists_parse(lists));
                return Err(e);
            },
        }
        i = i + 1;
    }
    let ids = distinct_ascending(&mins);
    assert(lists.len() == logical);
    assert(all_lists_parse(lists)) by {
        assert forall|k: int| 0 <= k < lists.len() implies (#[trigger] sibling_min_of(lists[k])) is Some by {
            assert(sibling_min_of(lists[k]) == Some(mins@[k]));
        }
    }
    assert(mins@ =~= Seq::new(lists.len(), |k: int| sibling_min_of(lists[k]).unwrap()));
    Ok(ids)
}

/// Counts the physical cores: the number of physical core indices.
pub fn physical_core_count(smt_enabled: bool, logical: u32, sibling_lists: &Vec<String>) -> (r: Result<u32, TopologyError>)
    ensures
        r == physical_count_of(smt_enabled, logical, texts(sibling_lists@)),
        r matches Ok(p) ==> p <= logical,
{
    match physical_core_ids(smt_enabled, logical, sibling_lists) {
        Ok(ids) => {
            proof {
                lemma_ascending_count(ids@);
            }
            Ok(ids.len() as u32)
        },
        Err(e) => Err(e),
    }
}

/// An ascending sequence holds as many values as its length.
pub proof fn lemma_ascending_count(ids: Seq<u32>)
    requires
        ascending(ids),
    ensures
        ids.to_set().len() == ids.len(),
{
    assert(ids.no_duplicates()) by {
        assert forall|i: int, j: int| 0 <= i < ids.len() && 0 <= j < ids.len() && i != j implies ids[i] != ids[j] by {
            if i < j {
                assert(ids[i] < ids[j]);
            } else {
                assert(ids[j] < ids[i]);
            }
        }
    }
    ids.unique_seq_to_set();
}

/// The sibling list of logical core `core`.
pub open spec fn sibling_list_path_of(core: u32) -> Seq<char> {
    "/sys/devices/system/cpu/cpu"@ + decimal_of(core as nat) + "/topology/core_cpus_list"@
}

/// Where the kernel lists the logical cores that share a physical core with
/// logical core `core`.
pub fn sibling_list_path(core: u32) -> (r: String)
    ensures
        r@ == sibling_list_path_of(core),
{
    let mut path = String::from_str("/sys/devices/system/cpu/cpu");
    let number = decimal(core);
    path.append(number.as_str());
    path.append("/topology/core_cpus_list");
    path
}

/// Whether SMT is on, how many logical and physical cores there are, and
/// the index of each physical core in ascending order.
#[derive(Debug)]
pub struct Topology {
    pub smt_enabled: bool,
    pub logical_core_count: u32,
    pub physical_core_count: u32,
    pub physical_core_ids: Vec<u32>,
}

impl Topology {
    pub open spec fn wf(&self) -> bool {
        &&& self.physical_core_count <= self.logical_core_count
        &&& !self.smt_enabled ==> self.physical_core_count == self.logical_core_count
        &&& self.physical_core_ids@.len() == self.physical_core_count
        &&& ascending(self.physical_core_ids@)
    }

    /// Builds the topology from the SMT control text, the online-core range
    /// and the sibling lists of logical cores `0..n` (needed only with SMT).
    pub fn from_files(control: &str, online: &str, sibling_lists: &Vec<String>) -> (r: Result<Topology, TopologyError>)
        ensures
            r is Err <==> (logical_count_of(online@) is Err || physical_count_of(
                smt_on(control@),
                logical_count_of(online@)->Ok_0,
                texts(sibling_lists@),
            ) is Err),
            r matches Err(e) ==> (match logical_count_of(online@) {
                Err(x) => e == x,
                Ok(n) => physical_count_of(smt_on(control@), n, texts(sibling_lists@)) == Err::<u32, TopologyError>(e),
            }),
            r matches Ok(t) ==> {
                &&& t.wf()
                &&& t.smt_enabled == smt_on(control@)
                &&& logical_count_of(online@) == Ok::<u32, TopologyError>(t.logical_core_count)
                &&& physical_count_of(t.smt_enabled, t.logical_core_count, texts(sibling_lists@)) == Ok::<u32, TopologyError>(t.physical_core_count)
                &&& t.physical_core_ids@.to_set() == core_ids_of(t.smt_enabled, t.logical_core_count, texts(sibling_lists@))
                &&& !t.smt_enabled ==> t.physical_core_ids@ == Seq::new(t.logical_core_count as nat, |i: int| i as u32)
            },
    {
        let smt_enabled = smt_enabled_from(control);
        let logical_core_count = match parse_online(online) {
            Ok(n) => n,
            Err(e) => return Err(e),
        };
        let physical_core_ids = match physical_core_ids(smt_enabled, logical_core_count, sibling_lists) {
            Ok(ids) => ids,
            Err(e) => return Err(e),
        };
        proof {
            lemma_ascending_count(physical_core_ids@);
        }
        let physical_core_count = physical_core_ids.len() as u32;
        Ok(Topology { smt_enabled, logical_core_count, physical_core_count, physical_core_ids })
    }
}

/// An online range `0-N` gives `N + 1` logical cores, for every `N` whose
/// successor fits in 32 bits.
pub proof fn law_online_range_counts(n: u32)
    requires
        n < u32::MAX,
    ensures
        logical_count_of("0-"@ + decimal_of(n as nat)) == Ok::<u32, TopologyError>((n + 1) as u32),
{
    reveal_strlit("0-");
    let d = decimal_of(n as nat);
    let s = "0-"@ + d;
    lemma_decimal_reads_back(n as nat);
    assert(s.last() == d.last());
    assert(trimmed_end(s) == s);
    assert(is_first(s, '-', 1));
    let k = choose|k: int| is_first(s, '-', k);
    assert(k == 1) by {
        if k > 1 {
            assert(s[1] == '-');
        }
        if k < 1 {
            assert(s[0] == '0');
        }
    }
    assert(s.subrange(2, s.len() as int) =~= d);
}

/// An online range `0-T` whose tail `T`, without trailing white space, is
/// not a run of digits is refused.
pub proof fn law_online_malformed_tail_refused(tail: Seq<char>)
    requires
        !is_numeral(trimmed_end(tail)),
    ensures
        logical_count_of("0-"@ + tail) == Err::<u32, TopologyError>(TopologyError::MalformedOnline),
{
    reveal_strlit("0-");
    let p = "0-"@;
    let s = p + tail;
    lemma_trim_after_dash(p, tail);
    let t = trimmed_end(s);
    assert(t == p + trimmed_end(tail));
    assert(is_first(t, '-', 1));
    let k = choose|k: int| is_first(t, '-', k);
    assert(k == 1) by {
        if k > 1 {
            assert(t[1] == '-');
        }
        if k < 1 {
            assert(t[0] == '0');
        }
    }
    assert(t.subrange(2, t.len() as int) =~= trimmed_end(tail));
}

/// Trimming stops at a last character that is not white space.
pub proof fn lemma_trim_after_dash(p: Seq<char>, tail: Seq<char>)
    requires
        p.len() > 0,
        !is_white_space(p.last()),
    ensures
        trimmed_end(p + tail) == p + trimmed_end(tail),
    decreases tail.len(),
{
    if tail.len() == 0 {
        assert(p + tail =~= p);
        assert(p + trimmed_end(tail) =~= p);
    } else {
        assert((p + tail).drop_last() =~= p + tail.drop_last());
        assert((p + tail).last() == tail.last());
        lemma_trim_after_dash(p, tail.drop_last());
        if !is_white_space(tail.last()) {
            assert(trimmed_end(tail) == tail);
        }
    }
}

/// An online range without a `-` is refused.
pub proof fn law_online_without_dash_refused(s: Seq<char>)
    requires
        forall|i: int| 0 <= i < s.len() ==> s[i] != '-',
    ensures
        logical_count_of(s) == Err::<u32, TopologyError>(TopologyError::MalformedOnline),
{
    let t = trimmed_end(s);
    lemma_trimmed_is_prefix(s);
    if exists|k: int| is_first(t, '-', k) {
        let k = choose|k: int| is_first(t, '-', k);
        assert(t[k] == s[k]);
    }
}

/// Trimming keeps a prefix.
pub proof fn lemma_trimmed_is_prefix(s: Seq<char>)
    ensures
        trimmed_end(s).len() <= s.len(),
        forall|i: int| 0 <= i < trimmed_end(s).len() ==> trimmed_end(s)[i] == s[i],
    decreases s.len(),
{
    if s.len() > 0 && is_white_space(s.last()) {
        lemma_trimmed_is_prefix(s.drop_last());
        assert forall|i: int| 0 <= i < trimmed_end(s).len() implies trimmed_end(s)[i] == s[i] by {
            assert(s.drop_last()[i] == s[i]);
        }
    }
}

/// Without SMT the physical core count is the logical count, whatever the
/// sibling lists hold.
pub proof fn law_smt_off_ignores_siblings(logical: u32, a: Seq<Seq<char>>, b: Seq<Seq<char>>)
    ensures
        physical_count_of(false, logical, a) == Ok::<u32, TopologyError>(logical),
        physical_count_of(false, logical, a) == physical_count_of(false, logical, b),
{
}

/// The different values among `ids`, in ascending order.
pub fn distinct_ascending(ids: &Vec<u32>) -> (r: Vec<u32>)
    ensures
        r@.to_set() == ids@.to_set(),
        r@.len() <= ids@.len(),
        forall|i: int, j: int| 0 <= i < j < r@.len() ==> r@[i] < r@[j],
{
    broadcast use vstd::std_specs::btree::group_btree_axioms;
    let mut set: BTreeSet<u32> = BTreeSet::new();
    let mut i: usize = 0;
    while i < ids.len()
        invariant
            i <= ids@.len(),
            set@ == ids@.subrange(0, i as int).to_set(),
            set@.len() <= i,
        decreases ids@.len() - i,
    {
        proof {
            assert(ids@.subrange(0, i + 1) =~= ids@.subrange(0, i as int) + seq![ids@[i as int]]);
            Seq::lemma_to_set_insert_commutes(ids@.subrange(0, i as int), ids@[i as int]);
        }
        set.insert(ids[i]);
        i = i + 1;
    }
    assert(ids@.subrange(0, i as int) =~= ids@);
    let ghost keys = vstd::std_specs::btree::spec_btree_keys_iter(&set).remaining();
    proof {
        vstd::std_specs::btree::axiom_spec_btree_keys_iter(&set);
    }
    let mut out: Vec<u32> = Vec::new();
    for id in it: set.iter()
        invariant
            it.seq() == keys,
            out@.len() == it.index(),
            forall|k: int| 0 <= k < out@.len() ==> out@[k] == *it.seq()[k],
    {
        out.push(*id);
    }
    assert(out@ =~= keys.unref());
    proof {
        broadcast use vstd::laws_cmp::group_laws_cmp;
        assert(vstd::laws_cmp::obeys_cmp::<u32>());
        assert(vstd::laws_cmp::obeys_cmp::<&u32>());
        vstd::std_specs::btree::axiom_increasing_seq_meaning::<&u32>(keys);
        assert(vstd::std_specs::btree::increasing_seq(keys));
        assert forall|i: int, j: int| 0 <= i < j < out@.len() implies out@[i] < out@[j] by {
            assert(keys.len() == out@.len());
            assert(<&u32 as OrdSpec>::cmp_spec(&keys[i], &keys[j]) is Less);
            assert(out@[i] == *keys[i] && out@[j] == *keys[j]);
        }
    }
    out
}

} // verus!
