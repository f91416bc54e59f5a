//! Symbol classification and archive aggregation. A symbol table entry
//! carries its info byte (binding in the high nibble, type in the low one)
//! and its name; a symbol is defined when it is non-local data or a
//! function, and needed when it is a non-local untyped reference. An
//! archive's defined set is the union of its members'; its needed set is
//! the union of the members' needs minus everything the archive itself
//! defines.
use vstd::prelude::*;
use crate::mapper::contains_str;

verus! {

broadcast use vstd::seq_lib::group_seq_properties;

/// Symbol binding value for file-local symbols.
pub const STB_LOCAL: u8 = 0;

/// Symbol type value for untyped (undefined external) symbols.
pub const STT_NOTYPE: u8 = 0;

/// Symbol type value for data objects.
pub const STT_OBJECT: u8 = 1;

/// Symbol type value for functions.
pub const STT_FUNC: u8 = 2;

/// One symbol table entry, reduced to what classification reads.
pub struct SymInfo {
    pub info: u8,
    pub name: String,
}

/// The defined and needed symbol names of one archive member.
pub struct MemberSyms {
    pub defined: Vec<String>,
    pub needed: Vec<String>,
}

/// The binding half of the info byte (its high nibble).
pub open spec fn bind_of(info: u8) -> u8 {
    info / 16
}

/// The type half of the info byte (its low nibble).
pub open spec fn type_of(info: u8) -> u8 {
    info % 16
}

/// A non-local symbol with a concrete definition (data or function).
pub open spec fn is_defined_sym(info: u8) -> bool {
    bind_of(info) != STB_LOCAL && (type_of(info) == STT_OBJECT || type_of(info) == STT_FUNC)
}

/// A non-local symbol that is referenced but carries no type: an undefined
/// external reference.
pub open spec fn is_needed_sym(info: u8) -> bool {
    bind_of(info) != STB_LOCAL && type_of(info) == STT_NOTYPE
}

/// The binding half of a symbol's info byte.
pub fn st_bind(info: u8) -> (r: u8)
    ensures
        r == bind_of(info),
{
    proof {
        assert(info >> 4 == info / 16) by (bit_vector);
    }
    info >> 4
}

/// The type half of a symbol's info byte.
pub fn st_type(info: u8) -> (r: u8)
    ensures
        r == type_of(info),
{
    proof {
        assert(info & 0xf == info % 16) by (bit_vector);
    }
    info & 0xf
}

/// The names of the defined entries, in table order.
pub open spec fn defined_names(syms: Seq<SymInfo>) -> Seq<String>
    decreases syms.len(),
{
    if syms.len() == 0 {
        Seq::empty()
    } else {
        let prev = defined_names(syms.drop_last());
        if is_defined_sym(syms.last().info) {
            prev.push(syms.last().name)
        } else {
            prev
        }
    }
}

/// The names of the needed entries, in table order.
pub open spec fn needed_names(syms: Seq<SymInfo>) -> Seq<String>
    decreases syms.len(),
{
    if syms.len() == 0 {
        Seq::empty()
    } else {
        let prev = needed_names(syms.drop_last());
        if is_needed_sym(syms.last().info) {
            prev.push(syms.last().name)
        } else {
            prev
        }
    }
}

/// Split a symbol table into the names it defines and the names it needs,
/// each in table order.
pub fn classify_symbols(syms: &Vec<SymInfo>) -> (r: (Vec<String>, Vec<String>))
    ensures
        r.0@ == defined_names(syms@),
        r.1@ == needed_names(syms@),
{
    let mut defined: Vec<String> = Vec::new();
    let mut needed: Vec<String> = Vec::new();
    let mut i: usize = 0;
    while i < syms.len()
        invariant
            0 <= i <= syms@.len(),
            defined@ == defined_names(syms@.take(i as int)),
            needed@ == needed_names(syms@.take(i as int)),
        decreases syms@.len() - i,
    {
        proof {
            assert(syms@.take(i as int + 1).drop_last() == syms@.take(i as int));
            assert(syms@.take(i as int + 1).last() == syms@[i as int]);
        }
        let bind = st_bind(syms[i].info);
        let typ = st_type(syms[i].info);
        if bind != STB_LOCAL && (typ == STT_OBJECT || typ == STT_FUNC) {
            defined.push(syms[i].name.clone());
        }
        if bind != STB_LOCAL && typ == STT_NOTYPE {
            needed.push(syms[i].name.clone());
        }
        i = i + 1;
    }
    proof {
        assert(syms@.take(syms@.len() as int) == syms@);
    }
    (defined, needed)
}

/// The concatenation of all members' defined names, in member order.
pub open spec fn concat_defined(ms: Seq<MemberSyms>) -> Seq<String>
    decreases ms.len(),
{
    if ms.len() == 0 {
        Seq::empty()
    } else {
        concat_defined(ms.drop_last()) + ms.last().defined@
    }
}

/// The concatenation of all members' needed names, in member order.
pub open spec fn concat_needed(ms: Seq<MemberSyms>) -> Seq<String>
    decreases ms.len(),
{
    if ms.len() == 0 {
        Seq::empty()
    } else {
        concat_needed(ms.drop_last()) + ms.last().needed@
    }
}

/// Keep the first occurrence of each name of `raw` that `defined` does not
/// spell, in order.
pub open spec fn dedup_filter(raw: Seq<String>, defined: Seq<String>) -> Seq<String>
    decreases raw.len(),
{
    if raw.len() == 0 {
        Seq::empty()
    } else {
        let prev = dedup_filter(raw.drop_last(), defined);
        if contains_str(defined, raw.last()@) || contains_str(prev, raw.last()@) {
            prev
        } else {
            prev.push(raw.last())
        }
    }
}

/// No two strings of `ss` spell the same name.
pub open spec fn no_dup_strs(ss: Seq<String>) -> bool {
    forall|i: int, j: int| 0 <= i < j < ss.len() ==> ss[i]@ != ss[j]@
}

/// What `dedup_filter` keeps: exactly the names of `raw` that `defined`
/// does not spell, each once.
pub proof fn lemma_dedup_filter(raw: Seq<String>, defined: Seq<String>)
    ensures
        no_dup_strs(dedup_filter(raw, defined)),
        forall|s: Seq<char>|
            #[trigger] contains_str(dedup_filter(raw, defined), s) <==> (contains_str(raw, s)
                && !contains_str(defined, s)),
    decreases raw.len(),
{
    let out = dedup_filter(raw, defined);
    if raw.len() == 0 {
        assert forall|s: Seq<char>| !(#[trigger] contains_str(out, s)) by {
            if contains_str(out, s) {
                let i = choose|i: int| 0 <= i < out.len() && out[i]@ == s;
            }
        }
        assert forall|s: Seq<char>| !(#[trigger] contains_str(raw, s)) by {
            if contains_str(raw, s) {
                let i = choose|i: int| 0 <= i < raw.len() && raw[i]@ == s;
            }
        }
    } else {
        let raw2 = raw.drop_last();
        let prev = dedup_filter(raw2, defined);
        lemma_dedup_filter(raw2, defined);
        assert forall|s: Seq<char>|
            #[trigger] contains_str(out, s) implies (contains_str(raw, s) && !contains_str(
            defined,
            s,
        )) by {
            if contains_str(prev, s) {
                assert(contains_str(raw2, s));
                let i = choose|i: int| 0 <= i < raw2.len() && raw2[i]@ == s;
                assert(raw[i]@ == s);
                assert(contains_str(raw, s));
            } else {
                assert(out == prev.push(raw.last()));
                let i = choose|i: int| 0 <= i < out.len() && out[i]@ == s;
                assert(i == out.len() - 1);
                assert(raw.last()@ == s);
                assert(raw[raw.len() - 1]@ == s);
                assert(contains_str(raw, s));
            }
        }
        assert forall|s: Seq<char>|
            contains_str(raw, s) && !contains_str(defined, s) implies #[trigger] contains_str(
            out,
            s,
        ) by {
            let i = choose|i: int| 0 <= i < raw.len() && raw[i]@ == s;
            if i < raw.len() - 1 {
                assert(raw2[i]@ == s);
                assert(contains_str(raw2, s));
                assert(contains_str(prev, s));
                if out == prev.push(raw.last()) {
                    let j = choose|j: int| 0 <= j < prev.len() && prev[j]@ == s;
                    assert(out[j]@ == s);
                } else {
                    assert(out == prev);
                }
                assert(contains_str(out, s));
            } else {
                assert(raw.last()@ == s);
                if contains_str(prev, s) {
                    if out == prev.push(raw.last()) {
                        let j = choose|j: int| 0 <= j < prev.len() && prev[j]@ == s;
                        assert(out[j]@ == s);
                    } else {
                        assert(out == prev);
                    }
                    assert(contains_str(out, s));
                } else {
                    assert(out == prev.push(raw.last()));
                    assert(out[out.len() - 1]@ == s);
                    assert(contains_str(out, s));
                }
            }
        }
        assert(no_dup_strs(out)) by {
            if out == prev.push(raw.last()) {
                assert(!contains_str(prev, raw.last()@));
                assert forall|i: int, j: int| 0 <= i < j < out.len() implies out[i]@ != out[j]@ by {
                    if j < prev.len() {
                    } else {
                        assert(out[j] == raw.last());
                        if out[i]@ == raw.last()@ {
                            assert(prev[i]@ == raw.last()@);
                            assert(contains_str(prev, raw.last()@));
                        }
                    }
                }
            }
        }
    }
}

/// A name is somewhere in the concatenated needed lists exactly when some
/// member needs it.
pub proof fn lemma_concat_needed_contains(ms: Seq<MemberSyms>, s: Seq<char>)
    ensures
        contains_str(concat_needed(ms), s) <==> exists|k: int|
            0 <= k < ms.len() && contains_str(#[trigger] ms[k].needed@, s),
    decreases ms.len(),
{
    if ms.len() == 0 {
        if contains_str(concat_needed(ms), s) {
            let i = choose|i: int| 0 <= i < concat_needed(ms).len() && concat_needed(ms)[i]@ == s;
        }
    } else {
        let ms2 = ms.drop_last();
        let whole = concat_needed(ms);
        let front = concat_needed(ms2);
        lemma_concat_needed_contains(ms2, s);
        assert(whole == front + ms.last().needed@);
        if contains_str(whole, s) {
            let i = choose|i: int| 0 <= i < whole.len() && whole[i]@ == s;
            if i < front.len() {
                assert(front[i]@ == s);
                assert(contains_str(front, s));
                let k = choose|k: int| 0 <= k < ms2.len() && contains_str(#[trigger] ms2[k].needed@, s);
                assert(ms[k].needed@ == ms2[k].needed@);
            } else {
                assert(ms.last().needed@[i - front.len()]@ == s);
                assert(contains_str(ms[ms.len() - 1].needed@, s));
            }
        }
        if exists|k: int| 0 <= k < ms.len() && contains_str(#[trigger] ms[k].needed@, s) {
            let k = choose|k: int| 0 <= k < ms.len() && contains_str(#[trigger] ms[k].needed@, s);
            let i = choose|i: int| 0 <= i < ms[k].needed@.len() && ms[k].needed@[i]@ == s;
            if k < ms.len() - 1 {
                assert(ms2[k].needed@[i]@ == s);
                assert(contains_str(ms2[k].needed@, s));
                assert(contains_str(front, s));
                let j = choose|j: int| 0 <= j < front.len() && front[j]@ == s;
                assert(whole[j]@ == s);
            } else {
                assert(whole[front.len() + i]@ == s);
            }
            assert(contains_str(whole, s));
        }
    }
}

/// Scan for a string spelling `s`.
pub fn contains_string(v: &Vec<String>, s: &String) -> (r: bool)
    ensures
        r == contains_str(v@, s@),
{
    let mut i: usize = 0;
    while i < v.len()
        invariant
            0 <= i <= v@.len(),
            forall|k: int| 0 <= k < i ==> v@[k]@ != s@,
        decreases v@.len() - i,
    {
        if v[i].eq(s) {
            assert(v@[i as int]@ == s@);
            return true;
        }
        i = i + 1;
    }
    false
}

/// Concatenate the members' defined and needed names, each in member
/// order.
fn concat_members(members: &Vec<MemberSyms>) -> (r: (Vec<String>, Vec<String>))
    ensures
        r.0@ == concat_defined(members@),
        r.1@ == concat_needed(members@),
{
    let mut defined: Vec<String> = Vec::new();
    let mut raw_needed: Vec<String> = Vec::new();
    let mut i: usize = 0;
    while i < members.len()
        invariant
            0 <= i <= members@.len(),
            defined@ == concat_defined(members@.take(i as int)),
            raw_needed@ == concat_needed(members@.take(i as int)),
        decreases members@.len() - i,
    {
        proof {
            assert(members@.take(i as int + 1).drop_last() == members@.take(i as int));
            assert(members@.take(i as int + 1).last() == members@[i as int]);
        }
        let ghost defined0 = defined@;
        let ghost raw0 = raw_needed@;
        let mut k: usize = 0;
        while k < members[i].defined.len()
            invariant
                0 <= i < members@.len(),
                0 <= k <= members@[i as int].defined@.len(),
                defined@ == defined0 + members@[i as int].defined@.take(k as int),
            decreases members@[i as int].defined@.len() - k,
        {
            defined.push(members[i].defined[k].clone());
            proof {
                assert(members@[i as int].defined@.take(k as int + 1) == members@[i as int].defined@.take(
                    k as int,
                ).push(members@[i as int].defined@[k as int]));
                assert(defined@ == defined0 + members@[i as int].defined@.take(k as int + 1));
            }
            k = k + 1;
        }
        proof {
            assert(members@[i as int].defined@.take(members@[i as int].defined@.len() as int)
                == members@[i as int].defined@);
        }
        let mut k2: usize = 0;
        while k2 < members[i].needed.len()
            invariant
                0 <= i < members@.len(),
                0 <= k2 <= members@[i as int].needed@.len(),
                raw_needed@ == raw0 + members@[i as int].needed@.take(k2 as int),
            decreases members@[i as int].needed@.len() - k2,
        {
            raw_needed.push(members[i].needed[k2].clone());
            proof {
                assert(members@[i as int].needed@.take(k2 as int + 1) == members@[i as int].needed@.take(
                    k2 as int,
                ).push(members@[i as int].needed@[k2 as int]));
                assert(raw_needed@ == raw0 + members@[i as int].needed@.take(k2 as int + 1));
            }
            k2 = k2 + 1;
        }
        proof {
            assert(members@[i as int].needed@.take(members@[i as int].needed@.len() as int)
                == members@[i as int].needed@);
        }
        i = i + 1;
    }
    proof {
        assert(members@.take(members@.len() as int) == members@);
    }
    (defined, raw_needed)
}

/// Keep the first occurrence of each name of `raw` that `defined` does
/// not spell.
fn dedup_against(raw: &Vec<String>, defined: &Vec<String>) -> (out: Vec<String>)
    ensures
        out@ == dedup_filter(raw@, defined@),
{
    let mut out: Vec<String> = Vec::new();
    let mut j: usize = 0;
    while j < raw.len()
        invariant
            0 <= j <= raw@.len(),
            out@ == dedup_filter(raw@.take(j as int), defined@),
        decreases raw@.len() - j,
    {
        proof {
            assert(raw@.take(j as int + 1).drop_last() == raw@.take(j as int));
            assert(raw@.take(j as int + 1).last() == raw@[j as int]);
        }
        if !contains_string(defined, &raw[j]) && !contains_string(&out, &raw[j]) {
            out.push(raw[j].clone());
        }
        j = j + 1;
    }
    proof {
        assert(raw@.take(raw@.len() as int) == raw@);
    }
    out
}

/// Aggregate an archive's members: defined is the concatenation of the
/// members' defined names; needed keeps the first occurrence of each
/// member-needed name that no member defines.
pub fn archive_symbols(members: &Vec<MemberSyms>) -> (r: (Vec<String>, Vec<String>))
    ensures
        r.0@ == concat_defined(members@),
        r.1@ == dedup_filter(concat_needed(members@), concat_defined(members@)),
        no_dup_strs(r.1@),
        forall|s: Seq<char>|
            #[trigger] contains_str(r.1@, s) <==> ((exists|k: int|
                0 <= k < members@.len() && contains_str(#[trigger] members@[k].needed@, s))
                && !contains_str(r.0@, s)),
{
    let c = concat_members(members);
    let needed = dedup_against(&c.1, &c.0);
    proof {
        lemma_dedup_filter(c.1@, c.0@);
        assert forall|s: Seq<char>|
            #[trigger] contains_str(needed@, s) <==> ((exists|k: int|
                0 <= k < members@.len() && contains_str(#[trigger] members@[k].needed@, s))
                && !contains_str(c.0@, s)) by {
            lemma_concat_needed_contains(members@, s);
        }
    }
    (c.0, needed)
}

/// The spellings of a sequence of strings.
pub open spec fn strs_view(v: Seq<String>) -> Seq<Seq<char>> {
    v.map_values(|s: String| s@)
}

/// A symbol table row reduced to plain values: info byte and spelling.
pub open spec fn rows_view(syms: Seq<SymInfo>) -> Seq<(u8, Seq<char>)> {
    syms.map_values(|s: SymInfo| (s.info, s.name@))
}

/// The spellings of the defined rows, in table order.
pub open spec fn defined_names_v(rs: Seq<(u8, Seq<char>)>) -> Seq<Seq<char>>
    decreases rs.len(),
{
    if rs.len() == 0 {
        Seq::empty()
    } else {
        let prev = defined_names_v(rs.drop_last());
        if is_defined_sym(rs.last().0) {
            prev.push(rs.last().1)
        } else {
            prev
        }
    }
}

/// The spellings of the needed rows, in table order.
pub open spec fn needed_names_v(rs: Seq<(u8, Seq<char>)>) -> Seq<Seq<char>>
    decreases rs.len(),
{
    if rs.len() == 0 {
        Seq::empty()
    } else {
        let prev = needed_names_v(rs.drop_last());
        if is_needed_sym(rs.last().0) {
            prev.push(rs.last().1)
        } else {
            prev
        }
    }
}

/// Classification commutes with taking spellings: what `classify_symbols`
/// promises of the strings holds of their spellings row-wise.
pub proof fn lemma_classify_view(syms: Seq<SymInfo>)
    ensures
        strs_view(defined_names(syms)) == defined_names_v(rows_view(syms)),
        strs_view(needed_names(syms)) == needed_names_v(rows_view(syms)),
    decreases syms.len(),
{
    if syms.len() == 0 {
        assert(strs_view(defined_names(syms)) =~= defined_names_v(rows_view(syms)));
        assert(strs_view(needed_names(syms)) =~= needed_names_v(rows_view(syms)));
    } else {
        let syms2 = syms.drop_last();
        lemma_classify_view(syms2);
        assert(rows_view(syms).drop_last() =~= rows_view(syms2));
        assert(rows_view(syms).last() == (syms.last().info, syms.last().name@));
        if is_defined_sym(syms.last().info) {
            assert(strs_view(defined_names(syms)) =~= strs_view(defined_names(syms2)).push(
                syms.last().name@,
            ));
        } else {
            assert(strs_view(defined_names(syms)) =~= strs_view(defined_names(syms2)));
        }
        if is_needed_sym(syms.last().info) {
            assert(strs_view(needed_names(syms)) =~= strs_view(needed_names(syms2)).push(
                syms.last().name@,
            ));
        } else {
            assert(strs_view(needed_names(syms)) =~= strs_view(needed_names(syms2)));
        }
    }
}

/// The defined and needed spellings of a member list.
pub open spec fn members_view(ms: Seq<MemberSyms>) -> Seq<(Seq<Seq<char>>, Seq<Seq<char>>)> {
    ms.map_values(|m: MemberSyms| (strs_view(m.defined@), strs_view(m.needed@)))
}

/// The concatenated defined spellings of a member list.
pub open spec fn concat_defined_v(ms: Seq<(Seq<Seq<char>>, Seq<Seq<char>>)>) -> Seq<Seq<char>>
    decreases ms.len(),
{
    if ms.len() == 0 {
        Seq::empty()
    } else {
        concat_defined_v(ms.drop_last()) + ms.last().0
    }
}

/// The concatenated needed spellings of a member list.
pub open spec fn concat_needed_v(ms: Seq<(Seq<Seq<char>>, Seq<Seq<char>>)>) -> Seq<Seq<char>>
    decreases ms.len(),
{
    if ms.len() == 0 {
        Seq::empty()
    } else {
        concat_needed_v(ms.drop_last()) + ms.last().1
    }
}

/// First occurrence of each spelling of `raw` that `defined` lacks.
pub open spec fn dedup_filter_v(raw: Seq<Seq<char>>, defined: Seq<Seq<char>>) -> Seq<Seq<char>>
    decreases raw.len(),
{
    if raw.len() == 0 {
        Seq::empty()
    } else {
        let prev = dedup_filter_v(raw.drop_last(), defined);
        if defined.contains(raw.last()) || prev.contains(raw.last()) {
            prev
        } else {
            prev.push(raw.last())
        }
    }
}

/// A string list spells `x` exactly when its spellings contain `x`.
pub proof fn lemma_contains_str_view(ss: Seq<String>, x: Seq<char>)
    ensures
        contains_str(ss, x) == strs_view(ss).contains(x),
{
    if contains_str(ss, x) {
        let i = choose|i: int| 0 <= i < ss.len() && ss[i]@ == x;
        assert(strs_view(ss)[i] == x);
    }
    if strs_view(ss).contains(x) {
        let i = choose|i: int| 0 <= i < strs_view(ss).len() && strs_view(ss)[i] == x;
        assert(ss[i]@ == x);
    }
}

/// Concatenation of the members' lists commutes with taking spellings.
pub proof fn lemma_concat_view(ms: Seq<MemberSyms>)
    ensures
        strs_view(concat_defined(ms)) == concat_defined_v(members_view(ms)),
        strs_view(concat_needed(ms)) == concat_needed_v(members_view(ms)),
    decreases ms.len(),
{
    if ms.len() == 0 {
        assert(strs_view(concat_defined(ms)) =~= concat_defined_v(members_view(ms)));
        assert(strs_view(concat_needed(ms)) =~= concat_needed_v(members_view(ms)));
    } else {
        let ms2 = ms.drop_last();
        lemma_concat_view(ms2);
        assert(members_view(ms).drop_last() =~= members_view(ms2));
        assert(members_view(ms).last() == (
            strs_view(ms.last().defined@),
            strs_view(ms.last().needed@),
        ));
        assert(strs_view(concat_defined(ms)) =~= strs_view(concat_defined(ms2)) + strs_view(
            ms.last().defined@,
        ));
        assert(strs_view(concat_needed(ms)) =~= strs_view(concat_needed(ms2)) + strs_view(
            ms.last().needed@,
        ));
    }
}

/// The duplicate-and-defined filter commutes with taking spellings.
pub proof fn lemma_dedup_filter_view(raw: Seq<String>, defined: Seq<String>)
    ensures
        strs_view(dedup_filter(raw, defined)) == dedup_filter_v(strs_view(raw), strs_view(defined)),
    decreases raw.len(),
{
    if raw.len() == 0 {
        assert(strs_view(dedup_filter(raw, defined)) =~= dedup_filter_v(
            strs_view(raw),
            strs_view(defined),
        ));
    } else {
        let raw2 = raw.drop_last();
        lemma_dedup_filter_view(raw2, defined);
        let prev = dedup_filter(raw2, defined);
        assert(strs_view(raw).drop_last() =~= strs_view(raw2));
        assert(strs_view(raw).last() == raw.last()@);
        lemma_contains_str_view(defined, raw.last()@);
        lemma_contains_str_view(prev, raw.last()@);
        if contains_str(defined, raw.last()@) || contains_str(prev, raw.last()@) {
            assert(dedup_filter(raw, defined) == prev);
        } else {
            assert(strs_view(dedup_filter(raw, defined)) =~= strs_view(prev).push(raw.last()@));
        }
    }
}

} // verus!
