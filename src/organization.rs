//! Keeping a table of departments and their employees from HR commands.

use vstd::prelude::*;

use crate::shell::{split_words, strings_view, words};
use crate::text::chars_of;

verus! {

/// Departments with their employees, by name.
pub type Org = Map<Seq<char>, Set<Seq<char>>>;

/// The employees of `d`; none for a department that does not exist.
pub open spec fn members(m: Org, d: Seq<char>) -> Set<Seq<char>> {
    if m.contains_key(d) {
        m[d]
    } else {
        Set::empty()
    }
}

/// `m` with `p` added to `d`.
pub open spec fn add_to(m: Org, p: Seq<char>, d: Seq<char>) -> Org {
    m.insert(d, members(m, d).insert(p))
}

/// `m` with `p` taken out of `d`, dropping `d` once it is empty.
pub open spec fn take_from(m: Org, p: Seq<char>, d: Seq<char>) -> Org {
    let rest = m[d].remove(p);
    if rest == Set::<Seq<char>>::empty() {
        m.remove(d)
    } else {
        m.insert(d, rest)
    }
}

/// The table after one command, given as its words: `Add p to d`,
/// `Remove p from d` (when `d` exists), `Move p from a to b` (when `p` is
/// in `a`; moving within one department changes nothing). Anything else
/// leaves the table as it is.
pub open spec fn hr_step(m: Org, w: Seq<Seq<char>>) -> Org {
    if w.len() == 4 && w[0] == seq!['A', 'd', 'd'] && w[2] == seq!['t', 'o'] {
        add_to(m, w[1], w[3])
    } else if w.len() == 4 && w[0] == seq!['R', 'e', 'm', 'o', 'v', 'e'] && w[2] == seq![
        'f',
        'r',
        'o',
        'm',
    ] {
        if m.contains_key(w[3]) {
            take_from(m, w[1], w[3])
        } else {
            m
        }
    } else if w.len() == 6 && w[0] == seq!['M', 'o', 'v', 'e'] && w[2] == seq!['f', 'r', 'o', 'm']
        && w[4] == seq!['t', 'o'] {
        if m.contains_key(w[3]) && m[w[3]].contains(w[1]) {
            if w[3] == w[5] {
                m
            } else {
                add_to(take_from(m, w[1], w[3]), w[1], w[5])
            }
        } else {
            m
        }
    } else {
        m
    }
}

/// The table after the commands, starting from an empty one.
pub open spec fn hr_all(cmds: Seq<Seq<char>>) -> Org
    decreases cmds.len(),
{
    if cmds.len() == 0 {
        Map::empty()
    } else {
        hr_step(hr_all(cmds.drop_last()), words(cmds.last()))
    }
}

/// The names held in `ps`.
pub open spec fn names(ps: Seq<String>) -> Set<Seq<char>> {
    Set::new(|x: Seq<char>| exists|j: int| 0 <= j < ps.len() && ps[j]@ == x)
}

/// The table that a list of departments stands for.
pub open spec fn org_of(v: Seq<(String, Vec<String>)>) -> Org {
    Map::new(
        |d: Seq<char>| exists|i: int| 0 <= i < v.len() && v[i].0@ == d,
        |d: Seq<char>|
            names(v[choose|i: int| 0 <= i < v.len() && v[i].0@ == d].1@),
    )
}

/// Department names are unique; each department has employees, each named once.
pub open spec fn org_wf(v: Seq<(String, Vec<String>)>) -> bool {
    &&& forall|i: int, j: int| 0 <= i < j < v.len() ==> v[i].0@ != v[j].0@
    &&& forall|i: int|
        0 <= i < v.len() ==> (#[trigger] v[i]).1@.len() > 0 && distinct_names(v[i].1@)
}

pub open spec fn distinct_names(ps: Seq<String>) -> bool {
    forall|a: int, b: int| 0 <= a < b < ps.len() ==> ps[a]@ != ps[b]@
}

proof fn lemma_org_lookup(v: Seq<(String, Vec<String>)>, i: int)
    requires
        org_wf(v),
        0 <= i < v.len(),
    ensures
        org_of(v).contains_key(v[i].0@),
        org_of(v)[v[i].0@] == names(v[i].1@),
{
    let d = v[i].0@;
    assert(org_of(v).contains_key(d));
    let k = choose|k: int| 0 <= k < v.len() && v[k].0@ == d;
    assert(k == i);
}

fn word_is(w: &String, lit: &str) -> (r: bool)
    ensures
        r == (w@ == lit@),
{
    let a = chars_of(w.as_str());
    let b = chars_of(lit);
    if a.len() != b.len() {
        return false;
    }
    let mut i: usize = 0;
    while i < a.len()
        invariant
            a@ == w@,
            b@ == lit@,
            a.len() == b.len(),
            i <= a.len(),
            forall|j: int| 0 <= j < i ==> a@[j] == b@[j],
        decreases a.len() - i,
    {
        if a[i] != b[i] {
            return false;
        }
        i += 1;
    }
    assert(a@ =~= b@);
    true
}

fn find_dept(v: &Vec<(String, Vec<String>)>, d: &String) -> (r: Option<usize>)
    requires
        org_wf(v@),
    ensures
        r is Some <==> org_of(v@).contains_key(d@),
        r is Some ==> r->Some_0 < v@.len() && v@[r->Some_0 as int].0@ == d@,
{
    let mut i: usize = 0;
    while i < v.len()
        invariant
            org_wf(v@),
            i <= v@.len(),
            forall|j: int| 0 <= j < i ==> v@[j].0@ != d@,
        decreases v.len() - i,
    {
        if v[i].0 == *d {
            proof {
                lemma_org_lookup(v@, i as int);
            }
            return Some(i);
        }
        i += 1;
    }
    None
}

fn find_member(ps: &Vec<String>, p: &String) -> (r: Option<usize>)
    ensures
        r is Some <==> names(ps@).contains(p@),
        r is Some ==> r->Some_0 < ps@.len() && ps@[r->Some_0 as int]@ == p@,
{
    let mut i: usize = 0;
    while i < ps.len()
        invariant
            i <= ps@.len(),
            forall|j: int| 0 <= j < i ==> ps@[j]@ != p@,
        decreases ps.len() - i,
    {
        if ps[i] == *p {
            assert(names(ps@).contains(p@));
            return Some(i);
        }
        i += 1;
    }
    None
}

proof fn lemma_org_remove(v: Seq<(String, Vec<String>)>, i: int)
    requires
        org_wf(v),
        0 <= i < v.len(),
    ensures
        org_wf(v.remove(i)),
        org_of(v.remove(i)) == org_of(v).remove(v[i].0@),
{
    let w = v.remove(i);
    assert forall|a: int, b: int| 0 <= a < b < w.len() implies w[a].0@ != w[b].0@ by {
        let va = if a < i { a } else { a + 1 };
        let vb = if b < i { b } else { b + 1 };
        assert(w[a] == v[va] && w[b] == v[vb]);
    }
    assert forall|a: int| 0 <= a < w.len() implies (#[trigger] w[a]).1@.len() > 0 && distinct_names(
        w[a].1@,
    ) by {
        let va = if a < i { a } else { a + 1 };
        assert(w[a] == v[va]);
    }
    let key = v[i].0@;
    assert forall|k: Seq<char>|
        #![trigger org_of(w).contains_key(k)]
        org_of(w).contains_key(k) <==> org_of(v).remove(key).contains_key(k) by {
        if org_of(w).contains_key(k) {
            let a = choose|a: int| 0 <= a < w.len() && w[a].0@ == k;
            let va = if a < i { a } else { a + 1 };
            assert(w[a] == v[va]);
        }
        if org_of(v).remove(key).contains_key(k) {
            let a = choose|a: int| 0 <= a < v.len() && v[a].0@ == k;
            if a < i {
                assert(w[a] == v[a]);
            } else {
                assert(w[a - 1] == v[a]);
            }
        }
    }
    assert forall|k: Seq<char>| #[trigger]
        org_of(w).contains_key(k) implies org_of(w)[k] == org_of(v).remove(key)[k] by {
        let a = choose|a: int| 0 <= a < w.len() && w[a].0@ == k;
        let va = if a < i { a } else { a + 1 };
        assert(w[a] == v[va]);
        lemma_org_lookup(w, a);
        lemma_org_lookup(v, va);
    }
    assert(org_of(w) =~= org_of(v).remove(key));
}

proof fn lemma_org_push(v: Seq<(String, Vec<String>)>, e: (String, Vec<String>))
    requires
        org_wf(v),
        !org_of(v).contains_key(e.0@),
        e.1@.len() > 0,
        distinct_names(e.1@),
    ensures
        org_wf(v.push(e)),
        org_of(v.push(e)) == org_of(v).insert(e.0@, names(e.1@)),
{
    let w = v.push(e);
    assert forall|a: int, b: int| 0 <= a < b < w.len() implies w[a].0@ != w[b].0@ by {
        if b == v.len() {
            assert(w[a] == v[a]);
            if v[a].0@ == e.0@ {
                assert(org_of(v).contains_key(e.0@));
            }
        }
    }
    assert forall|a: int| 0 <= a < w.len() implies (#[trigger] w[a]).1@.len() > 0 && distinct_names(
        w[a].1@,
    ) by {
        if a < v.len() {
            assert(w[a] == v[a]);
        }
    }
    let m = org_of(v).insert(e.0@, names(e.1@));
    assert forall|k: Seq<char>|
        #![trigger org_of(w).contains_key(k)]
        org_of(w).contains_key(k) <==> m.contains_key(k) by {
        if org_of(w).contains_key(k) {
            let a = choose|a: int| 0 <= a < w.len() && w[a].0@ == k;
            if a < v.len() {
                assert(w[a] == v[a]);
            }
        }
        if org_of(v).contains_key(k) {
            let a = choose|a: int| 0 <= a < v.len() && v[a].0@ == k;
            assert(w[a] == v[a]);
        }
        if k == e.0@ {
            assert(w[v.len() as int] == e);
        }
    }
    assert forall|k: Seq<char>| #[trigger] org_of(w).contains_key(k) implies org_of(w)[k] == m[k] by {
        let a = choose|a: int| 0 <= a < w.len() && w[a].0@ == k;
        lemma_org_lookup(w, a);
        if a < v.len() {
            assert(w[a] == v[a]);
            lemma_org_lookup(v, a);
        }
    }
    assert(org_of(w) =~= m);
}

/// Adds `p` to department `d`, creating the department if needed.
fn add_member(v: &mut Vec<(String, Vec<String>)>, p: String, d: String)
    requires
        org_wf(old(v)@),
    ensures
        org_wf(final(v)@),
        org_of(final(v)@) == add_to(org_of(old(v)@), p@, d@),
{
    let ghost m = org_of(v@);
    match find_dept(v, &d) {
        Some(i) => {
            proof {
                lemma_org_lookup(v@, i as int);
                lemma_org_remove(v@, i as int);
            }
            let (name, mut ps) = v.remove(i);
            let ghost before = ps@;
            assert(m[d@] == names(before));
            if find_member(&ps, &p).is_none() {
                ps.push(p);
                proof {
                    assert(names(ps@) =~= names(before).insert(p@)) by {
                        assert forall|x: Seq<char>| names(before).insert(p@).contains(x) implies names(ps@).contains(x) by {
                            if x == p@ {
                                assert(ps@[before.len() as int]@ == x);
                            } else {
                                let j = choose|j: int| 0 <= j < before.len() && before[j]@ == x;
                                assert(ps@[j]@ == x);
                            }
                        }
                        assert forall|x: Seq<char>| names(ps@).contains(x) implies names(before).insert(p@).contains(x) by {
                            let j = choose|j: int| 0 <= j < ps@.len() && ps@[j]@ == x;
                            if j < before.len() {
                                assert(before[j]@ == x);
                            }
                        }
                    }
                    assert forall|a: int, b: int| 0 <= a < b < ps@.len() implies ps@[a]@ != ps@[b]@ by {
                        if b == before.len() {
                            assert(before[a]@ == ps@[a]@);
                        }
                    }
                }
            } else {
                assert(names(ps@) =~= names(before).insert(p@));
            }
            proof {
                lemma_org_push(v@, (name, ps));
            }
            v.push((name, ps));
            assert(org_of(v@) =~= add_to(m, p@, d@));
        },
        None => {
            let ghost pv = p@;
            let ps = vec![p];
            proof {
                assert(names(ps@) =~= Set::<Seq<char>>::empty().insert(pv)) by {
                    assert forall|x: Seq<char>| names(ps@).contains(x) implies x == pv by {
                        let j = choose|j: int| 0 <= j < ps@.len() && ps@[j]@ == x;
                    }
                    assert(ps@[0]@ == pv);
                }
                lemma_org_push(v@, (d, ps));
            }
            v.push((d, ps));
        },
    }
}

/// Takes `p` out of the existing department at index `i`, dropping the
/// department once it is empty.
fn take_member(v: &mut Vec<(String, Vec<String>)>, p: &String, i: usize)
    requires
        org_wf(old(v)@),
        i < old(v)@.len(),
    ensures
        org_wf(final(v)@),
        org_of(final(v)@) == take_from(org_of(old(v)@), p@, old(v)@[i as int].0@),
{
    let ghost m = org_of(v@);
    let ghost d = v@[i as int].0@;
    proof {
        lemma_org_lookup(v@, i as int);
        lemma_org_remove(v@, i as int);
    }
    let (name, mut ps) = v.remove(i);
    let ghost before = ps@;
    match find_member(&ps, p) {
        Some(j) => {
            ps.remove(j);
            proof {
                assert(names(ps@) =~= names(before).remove(p@)) by {
                    assert forall|x: Seq<char>| names(before).remove(p@).contains(x) implies names(ps@).contains(x) by {
                        let k = choose|k: int| 0 <= k < before.len() && before[k]@ == x;
                        if k < j {
                            assert(ps@[k] == before[k]);
                        } else {
                            assert(ps@[k - 1] == before[k]);
                        }
                    }
                    assert forall|x: Seq<char>| names(ps@).contains(x) implies names(before).remove(p@).contains(x) by {
                        let k = choose|k: int| 0 <= k < ps@.len() && ps@[k]@ == x;
                        let kb = if k < j { k } else { k + 1 };
                        assert(ps@[k] == before[kb]);
                    }
                }
                assert forall|a: int, b: int| 0 <= a < b < ps@.len() implies ps@[a]@ != ps@[b]@ by {
                    let ab = if a < j { a } else { a + 1 };
                    let bb = if b < j { b } else { b + 1 };
                    assert(ps@[a] == before[ab] && ps@[b] == before[bb]);
                }
            }
        },
        None => {
            assert(names(before).remove(p@) =~= names(before));
        },
    }
    if ps.len() > 0 {
        proof {
            assert(names(ps@).contains(ps@[0]@));
            lemma_org_push(v@, (name, ps));
        }
        v.push((name, ps));
        assert(org_of(v@) =~= take_from(m, p@, d));
    } else {
        assert(names(ps@) =~= Set::<Seq<char>>::empty());
        assert(org_of(v@) =~= take_from(m, p@, d));
    }
}

/// The departments and their employees after the HR commands, from an empty
/// table (see [`hr_step`]). Each department appears once, with at least one
/// employee, each named once.
pub fn organize(commands: Vec<String>) -> (r: Vec<(String, Vec<String>)>)
    ensures
        org_wf(r@),
        org_of(r@) == hr_all(strings_view(commands@)),
{
    let mut org: Vec<(String, Vec<String>)> = Vec::new();
    assert(org_of(org@) =~= Map::<Seq<char>, Set<Seq<char>>>::empty());
    let mut c: usize = 0;
    while c < commands.len()
        invariant
            c <= commands@.len(),
            org_wf(org@),
            org_of(org@) == hr_all(strings_view(commands@).take(c as int)),
        decreases commands.len() - c,
    {
        proof {
            assert(strings_view(commands@).take(c + 1).drop_last() =~= strings_view(commands@).take(c as int));
        }
        let ghost m = org_of(org@);
        let mut w: Vec<String> = Vec::new();
        split_words(&chars_of(commands[c].as_str()), &mut w);
        assert(strings_view(w@) =~= words(commands@[c as int]@));
        let ghost ws = strings_view(w@);
        proof {
            reveal_strlit("Add");
            reveal_strlit("to");
            reveal_strlit("Remove");
            reveal_strlit("from");
            reveal_strlit("Move");
            assert("Add"@ == seq!['A', 'd', 'd']);
            assert("to"@ == seq!['t', 'o']);
            assert("Remove"@ == seq!['R', 'e', 'm', 'o', 'v', 'e']);
            assert("from"@ == seq!['f', 'r', 'o', 'm']);
            assert("Move"@ == seq!['M', 'o', 'v', 'e']);
            assert(ws.len() == w@.len());
            assert(forall|k: int| 0 <= k < ws.len() ==> ws[k] == (#[trigger] w@[k])@);
        }
        if w.len() == 4 && word_is(&w[0], "Add") && word_is(&w[2], "to") {
            let p = w[1].clone();
            let d = w[3].clone();
            add_member(&mut org, p, d);
            assert(ws.len() == 4 && ws[1] == w@[1]@ && ws[3] == w@[3]@);
            assert(ws[0] == seq!['A', 'd', 'd']);
            assert(ws[2] == seq!['t', 'o']);
            assert(org_of(org@) == hr_step(m, ws));
        } else if w.len() == 4 && word_is(&w[0], "Remove") && word_is(&w[2], "from") {
            if let Some(i) = find_dept(&org, &w[3]) {
                take_member(&mut org, &w[1], i);
            }
            assert(ws.len() == 4 && ws[1] == w@[1]@ && ws[3] == w@[3]@);
            assert(ws[0] == seq!['R', 'e', 'm', 'o', 'v', 'e']);
            assert(ws[2] == seq!['f', 'r', 'o', 'm']);
            assert(ws[0] != seq!['A', 'd', 'd']);
            assert(org_of(org@) == hr_step(m, ws));
        } else if w.len() == 6 && word_is(&w[0], "Move") && word_is(&w[2], "from") && word_is(
            &w[4],
            "to",
        ) {
            if let Some(i) = find_dept(&org, &w[3]) {
                proof {
                    lemma_org_lookup(org@, i as int);
                }
                if find_member(&org[i].1, &w[1]).is_some() && !(w[3] == w[5]) {
                    take_member(&mut org, &w[1], i);
                    add_member(&mut org, w[1].clone(), w[5].clone());
                }
            }
            assert(ws[0] == w@[0]@ && ws[1] == w@[1]@ && ws[2] == w@[2]@);
            assert(ws[3] == w@[3]@ && ws[4] == w@[4]@ && ws[5] == w@[5]@);
            assert(ws[0] != seq!['A', 'd', 'd']);
            assert(ws[0] != seq!['R', 'e', 'm', 'o', 'v', 'e']);
            assert(org_of(org@) == hr_step(m, ws));
        } else {
            proof {
                if ws.len() == 4 {
                    assert(ws[0] == w@[0]@ && ws[2] == w@[2]@);
                }
                if ws.len() == 6 {
                    assert(ws[0] == w@[0]@ && ws[2] == w@[2]@ && ws[4] == w@[4]@);
                }
            }
            assert(org_of(org@) == hr_step(m, ws));
        }
        c += 1;
    }
    assert(strings_view(commands@).take(c as int) =~= strings_view(commands@));
    org
}

} // verus!
