//! What the shell's dynamic completion offers: project names, issue names, and
//! the project already typed on an `agent` command line. Every list is sorted
//! with no name twice, as a set would give it.

use vstd::prelude::*;
use crate::marks::{opt_string, Mark};
use crate::report::{ascending, found_at, item_of, key_pos, keys_of, lemma_insert_ascending};
use crate::text::{chars_eq, chars_of, chars_order, lemma_seq_lt_total, seq_lt, string_of, views};
use crate::tracker::{entry_views, EntryView, TimeData};

verus! {

/// `x` added to an ascending list with no repeats, unless it is there already.
pub open spec fn set_insert(list: Seq<Seq<char>>, x: Seq<char>) -> Seq<Seq<char>> {
    let k = key_pos(list, x) as int;
    if 0 <= k < list.len() && list[k] == x {
        list
    } else {
        list.insert(k, x)
    }
}

/// The names, sorted, each once.
pub open spec fn name_set(names: Seq<Seq<char>>) -> Seq<Seq<char>>
    decreases names.len(),
{
    if names.len() == 0 {
        seq![]
    } else {
        set_insert(name_set(names.drop_last()), names.last())
    }
}

proof fn lemma_key_pos_le(keys: Seq<Seq<char>>, key: Seq<char>)
    ensures
        key_pos(keys, key) <= keys.len(),
    decreases keys.len(),
{
    if keys.len() > 0 {
        lemma_key_pos_le(keys.drop_first(), key);
    }
}

fn insert_name(list: &mut Vec<String>, x: String)
    ensures
        views(final(list)@) == set_insert(views(old(list)@), x@),
{
    let ghost lv = views(list@);
    let key = chars_of(x.as_str());
    let mut i: usize = 0;
    assert(lv.skip(0) =~= lv);
    while i < list.len() && chars_order(&chars_of(list[i].as_str()), &key) < 0
        invariant
            lv == views(list@),
            key@ == x@,
            i <= list.len(),
            key_pos(lv, x@) == i + key_pos(lv.skip(i as int), x@),
        decreases list.len() - i,
    {
        let ghost rest = lv.skip(i as int);
        assert(rest.drop_first() =~= lv.skip(i + 1));
        assert(rest[0] == list@[i as int]@);
        i += 1;
    }
    proof {
        lemma_key_pos_le(lv, x@);
        let rest = lv.skip(i as int);
        if i < list.len() {
            assert(rest[0] == lv[i as int]);
            assert(!seq_lt(lv[i as int], x@));
        } else {
            assert(rest.len() == 0);
        }
    }
    assert(key_pos(lv, x@) == i);
    if i < list.len() && chars_eq(&chars_of(list[i].as_str()), &key) {
        return;
    }
    list.insert(i, x);
    assert(views(list@) =~= lv.insert(i as int, x@));
}

/// The non-empty projects of the entries, in order.
pub open spec fn entry_projects(entries: Seq<EntryView>) -> Seq<Seq<char>>
    decreases entries.len(),
{
    if entries.len() == 0 {
        seq![]
    } else {
        let rest = entry_projects(entries.drop_last());
        match entries.last().project {
            Some(p) => if p.len() > 0 {
                rest.push(p)
            } else {
                rest
            },
            None => rest,
        }
    }
}

/// The non-empty projects of the marks, in order.
pub open spec fn mark_projects(marks: Seq<Mark>) -> Seq<Seq<char>>
    decreases marks.len(),
{
    if marks.len() == 0 {
        seq![]
    } else {
        let rest = mark_projects(marks.drop_last());
        if marks.last().project@.len() > 0 {
            rest.push(marks.last().project@)
        } else {
            rest
        }
    }
}

/// Every project named by a store entry or an open mark, sorted, each once;
/// empty names left out.
pub fn project_names(data: &TimeData, marks: &Vec<Mark>) -> (r: Vec<String>)
    ensures
        views(r@) == name_set(entry_projects(entry_views(data.entries@)) + mark_projects(marks@)),
{
    let ghost ev = entry_views(data.entries@);
    let mut names: Vec<String> = Vec::new();
    let ghost mut seen: Seq<Seq<char>> = seq![];
    let mut i: usize = 0;
    while i < data.entries.len()
        invariant
            ev == entry_views(data.entries@),
            i <= data.entries.len(),
            seen == entry_projects(ev.subrange(0, i as int)),
            views(names@) == name_set(seen),
        decreases data.entries.len() - i,
    {
        assert(ev.subrange(0, i + 1).drop_last() =~= ev.subrange(0, i as int));
        assert(ev.subrange(0, i + 1).last() == data.entries@[i as int]@);
        match &data.entries[i].project {
            Some(p) => {
                if p.as_str().unicode_len() > 0 {
                    proof {
                        assert(seen.push(p@).drop_last() =~= seen);
                        seen = seen.push(p@);
                    }
                    insert_name(&mut names, p.clone());
                }
            },
            None => {},
        }
        i += 1;
    }
    assert(ev.subrange(0, ev.len() as int) =~= ev);
    let mut j: usize = 0;
    let ghost base = seen;
    while j < marks.len()
        invariant
            j <= marks.len(),
            seen == base + mark_projects(marks@.subrange(0, j as int)),
            views(names@) == name_set(seen),
        decreases marks.len() - j,
    {
        assert(marks@.subrange(0, j + 1).drop_last() =~= marks@.subrange(0, j as int));
        if marks[j].project.as_str().unicode_len() > 0 {
            proof {
                assert(seen.push(marks@[j as int].project@).drop_last() =~= seen);
                seen = seen.push(marks@[j as int].project@);
            }
            insert_name(&mut names, marks[j].project.clone());
        }
        assert(seen =~= base + mark_projects(marks@.subrange(0, j + 1)));
        j += 1;
    }
    assert(marks@.subrange(0, marks@.len() as int) =~= marks@);
    names
}

/// The project positional already typed on an `agent` command line, read from
/// the completer's own arguments `<bin> -- tt agent <sub> <project> …`: the word
/// two after the first `agent` following the first `--`, when it is there and
/// not empty.
pub open spec fn typed_project_spec(args: Seq<Seq<char>>) -> Option<Seq<char>> {
    match first_index(args, "--"@) {
        None => None,
        Some(d) => {
            let words = args.subrange(d + 1, args.len() as int);
            match first_index(words, "agent"@) {
                None => None,
                Some(a) => if a + 2 < words.len() && words[a + 2].len() > 0 {
                    Some(words[a + 2])
                } else {
                    None
                },
            }
        },
    }
}

/// Where `w` first occurs.
pub open spec fn first_index(s: Seq<Seq<char>>, w: Seq<char>) -> Option<int>
    decreases s.len(),
{
    if s.len() == 0 {
        None
    } else {
        match first_index(s.drop_last(), w) {
            Some(i) => Some(i),
            None => if s.last() == w {
                Some(s.len() - 1)
            } else {
                None
            },
        }
    }
}

proof fn lemma_first_index_prefix(s: Seq<Seq<char>>, w: Seq<char>, i: int)
    requires
        0 <= i < s.len(),
        first_index(s.subrange(0, i), w) is None,
        s[i] == w,
    ensures
        first_index(s, w) == Some(i),
    decreases s.len() - i,
{
    if i + 1 == s.len() {
        assert(s.drop_last() =~= s.subrange(0, i));
    } else {
        assert(s.drop_last().subrange(0, i) =~= s.subrange(0, i));
        lemma_first_index_prefix(s.drop_last(), w, i);
    }
}

fn find_word(s: &Vec<Vec<char>>, from: usize, w: &Vec<char>) -> (r: Option<usize>)
    requires
        from <= s@.len(),
    ensures
        match r {
            Some(i) => from <= i < s@.len() && first_index(
                s@.subrange(from as int, s@.len() as int).map_values(|x: Vec<char>| x@),
                w@,
            ) == Some(i - from),
            None => first_index(s@.subrange(from as int, s@.len() as int).map_values(|x: Vec<char>| x@), w@) is None,
        },
{
    let ghost all = s@.subrange(from as int, s@.len() as int).map_values(|x: Vec<char>| x@);
    let mut i = from;
    while i < s.len()
        invariant
            from <= i <= s@.len(),
            all == s@.subrange(from as int, s@.len() as int).map_values(|x: Vec<char>| x@),
            first_index(all.subrange(0, i - from), w@) is None,
        decreases s.len() - i,
    {
        assert(all.subrange(0, i + 1 - from).drop_last() =~= all.subrange(0, i - from));
        if chars_eq(&s[i], w) {
            assert(all[i - from] == s@[i as int]@);
            proof {
                lemma_first_index_prefix(all, w@, i - from);
            }
            return Some(i);
        }
        i += 1;
    }
    assert(all.subrange(0, all.len() as int) =~= all);
    None
}

pub fn typed_project(args: &Vec<String>) -> (r: Option<String>)
    ensures
        opt_string(r) == typed_project_spec(views(args@)),
{
    let ghost av = views(args@);
    let mut words: Vec<Vec<char>> = Vec::new();
    let mut i: usize = 0;
    while i < args.len()
        invariant
            av == views(args@),
            i <= args.len(),
            words@.len() == i,
            forall|j: int| 0 <= j < i ==> (#[trigger] words@[j])@ == av[j],
        decreases args.len() - i,
    {
        words.push(chars_of(args[i].as_str()));
        i += 1;
    }
    assert(words@.subrange(0, words@.len() as int).map_values(|x: Vec<char>| x@) =~= av);
    let dashes = chars_of("--");
    let agent = chars_of("agent");
    let d = match find_word(&words, 0, &dashes) {
        Some(d) => d,
        None => {
            return None;
        },
    };
    let ghost rest = av.subrange(d + 1, av.len() as int);
    assert(words@.subrange(d + 1, words@.len() as int).map_values(|x: Vec<char>| x@) =~= rest);
    let a = match find_word(&words, d + 1, &agent) {
        Some(a) => a,
        None => {
            return None;
        },
    };
    if words.len() > 2 && a < words.len() - 2 && words[a + 2].len() > 0 {
        assert(rest[a - d - 1 + 2] == av[a + 2]);
        Some(args[a + 2].clone())
    } else {
        None
    }
}

/// Where `c` first occurs.
pub open spec fn char_pos(s: Seq<char>, c: char) -> Option<int>
    decreases s.len(),
{
    if s.len() == 0 {
        None
    } else {
        match char_pos(s.drop_last(), c) {
            Some(i) => Some(i),
            None => if s.last() == c {
                Some(s.len() - 1)
            } else {
                None
            },
        }
    }
}

/// Where `char_pos` points, the character is there.
pub proof fn lemma_char_pos_found(s: Seq<char>, c: char)
    ensures
        match char_pos(s, c) {
            Some(i) => 0 <= i < s.len() && s[i] == c,
            None => forall|j: int| 0 <= j < s.len() ==> s[j] != c,
        },
    decreases s.len(),
{
    if s.len() > 0 {
        let init = s.drop_last();
        lemma_char_pos_found(init, c);
        assert forall|j: int| 0 <= j < init.len() implies init[j] == s[j] by {}
        match char_pos(init, c) {
            Some(i) => {
                assert(char_pos(s, c) == Some(i));
            },
            None => {
                if s.last() != c {
                    assert forall|j: int| 0 <= j < s.len() implies s[j] != c by {
                        if j < init.len() {
                            assert(init[j] != c);
                        }
                    }
                }
            },
        }
    }
}

proof fn lemma_char_pos_prefix(s: Seq<char>, c: char, i: int)
    requires
        0 <= i < s.len(),
        char_pos(s.subrange(0, i), c) is None,
        s[i] == c,
    ensures
        char_pos(s, c) == Some(i),
    decreases s.len() - i,
{
    if i + 1 == s.len() {
        assert(s.drop_last() =~= s.subrange(0, i));
    } else {
        assert(s.drop_last().subrange(0, i) =~= s.subrange(0, i));
        lemma_char_pos_prefix(s.drop_last(), c, i);
    }
}

fn find_char(s: &Vec<char>, c: char) -> (r: Option<usize>)
    ensures
        match r {
            Some(i) => char_pos(s@, c) == Some(i as int) && i < s@.len(),
            None => char_pos(s@, c) is None,
        },
{
    let mut i: usize = 0;
    while i < s.len()
        invariant
            i <= s.len(),
            char_pos(s@.subrange(0, i as int), c) is None,
        decreases s.len() - i,
    {
        assert(s@.subrange(0, i + 1).drop_last() =~= s@.subrange(0, i as int));
        if s[i] == c {
            proof {
                lemma_char_pos_prefix(s@, c, i as int);
            }
            return Some(i);
        }
        i += 1;
    }
    assert(s@.subrange(0, s@.len() as int) =~= s@);
    None
}

/// Where `c` first occurs in `s`.
pub fn find_char_pub(s: &Vec<char>, c: char) -> (r: Option<usize>)
    ensures
        match r {
            Some(i) => char_pos(s@, c) == Some(i as int) && i < s@.len(),
            None => char_pos(s@, c) is None,
        },
{
    find_char(s, c)
}

/// Whether a project is the one asked for; no project asked for wants them all.
pub open spec fn wanted(project: Option<Seq<char>>, p: Seq<char>) -> bool {
    match project {
        Some(w) => w == p,
        None => true,
    }
}

/// The issue an entry names: after the first `/` of its item tag, when the part
/// before is a wanted project and the issue is not empty.
pub open spec fn entry_issue(e: EntryView, project: Option<Seq<char>>) -> Option<Seq<char>> {
    match item_of(e.tags) {
        Some(item) => match char_pos(item, '/') {
            Some(i) => {
                let p = item.subrange(0, i);
                let issue = item.subrange(i + 1, item.len() as int);
                if wanted(project, p) && issue.len() > 0 {
                    Some(issue)
                } else {
                    None
                }
            },
            None => None,
        },
        None => None,
    }
}

pub open spec fn entry_issues(entries: Seq<EntryView>, project: Option<Seq<char>>) -> Seq<Seq<char>>
    decreases entries.len(),
{
    if entries.len() == 0 {
        seq![]
    } else {
        let rest = entry_issues(entries.drop_last(), project);
        match entry_issue(entries.last(), project) {
            Some(i) => rest.push(i),
            None => rest,
        }
    }
}

pub open spec fn mark_issues(marks: Seq<Mark>, project: Option<Seq<char>>) -> Seq<Seq<char>>
    decreases marks.len(),
{
    if marks.len() == 0 {
        seq![]
    } else {
        let rest = mark_issues(marks.drop_last(), project);
        let m = marks.last();
        if wanted(project, m.project@) && m.issue is Some {
            rest.push(m.issue->0@)
        } else {
            rest
        }
    }
}

fn wanted_exec(project: Option<&str>, p: &Vec<char>) -> (r: bool)
    ensures
        r == wanted(crate::marks::opt_str(project), p@),
{
    match project {
        Some(w) => chars_eq(&chars_of(w), p),
        None => true,
    }
}

/// Issues known for `project` (or for every project), from the entries' item
/// tags and the open marks, sorted, each once, always with the no-issue
/// sentinel `-`.
pub fn issue_names(data: &TimeData, marks: &Vec<Mark>, project: Option<&str>) -> (r: Vec<String>)
    ensures
        views(r@) == name_set(
            entry_issues(entry_views(data.entries@), crate::marks::opt_str(project)) + mark_issues(
                marks@,
                crate::marks::opt_str(project),
            ) + seq!["-"@],
        ),
{
    let ghost want = crate::marks::opt_str(project);
    let ghost ev = entry_views(data.entries@);
    let mut names: Vec<String> = Vec::new();
    let ghost mut seen: Seq<Seq<char>> = seq![];
    let mut i: usize = 0;
    while i < data.entries.len()
        invariant
            want == crate::marks::opt_str(project),
            ev == entry_views(data.entries@),
            i <= data.entries.len(),
            seen == entry_issues(ev.subrange(0, i as int), want),
            views(names@) == name_set(seen),
        decreases data.entries.len() - i,
    {
        assert(ev.subrange(0, i + 1).drop_last() =~= ev.subrange(0, i as int));
        assert(ev.subrange(0, i + 1).last() == data.entries@[i as int]@);
        let (item, _) = crate::report::classify(&data.entries[i].tags);
        match item {
            Some(it) => {
                let cs = chars_of(it.as_str());
                let n = cs.len();
                match find_char(&cs, '/') {
                    Some(k) => {
                        let mut p: Vec<char> = Vec::new();
                        let mut q: usize = 0;
                        while q < k
                            invariant
                                q <= k,
                                k < cs.len(),
                                p@ == cs@.subrange(0, q as int),
                            decreases k - q,
                        {
                            p.push(cs[q]);
                            q += 1;
                            assert(p@ =~= cs@.subrange(0, q as int));
                        }
                        let mut issue: Vec<char> = Vec::new();
                        let mut q2: usize = k + 1;
                        while q2 < n
                            invariant
                                k + 1 <= q2 <= n,
                                n == cs.len(),
                                issue@ == cs@.subrange(k + 1, q2 as int),
                            decreases n - q2,
                        {
                            issue.push(cs[q2]);
                            q2 += 1;
                            assert(issue@ =~= cs@.subrange(k + 1, q2 as int));
                        }
                        if wanted_exec(project, &p) && issue.len() > 0 {
                            let t = string_of(&issue);
                            proof {
                                assert(seen.push(t@).drop_last() =~= seen);
                                seen = seen.push(t@);
                            }
                            insert_name(&mut names, t);
                        }
                    },
                    None => {},
                }
            },
            None => {},
        }
        i += 1;
    }
    assert(ev.subrange(0, ev.len() as int) =~= ev);
    let ghost base = seen;
    let mut j: usize = 0;
    while j < marks.len()
        invariant
            want == crate::marks::opt_str(project),
            j <= marks.len(),
            seen == base + mark_issues(marks@.subrange(0, j as int), want),
            views(names@) == name_set(seen),
        decreases marks.len() - j,
    {
        assert(marks@.subrange(0, j + 1).drop_last() =~= marks@.subrange(0, j as int));
        let pc = chars_of(marks[j].project.as_str());
        if wanted_exec(project, &pc) {
            match &marks[j].issue {
                Some(iss) => {
                    proof {
                        assert(seen.push(iss@).drop_last() =~= seen);
                        seen = seen.push(iss@);
                    }
                    insert_name(&mut names, iss.clone());
                },
                None => {},
            }
        }
        assert(seen =~= base + mark_issues(marks@.subrange(0, j + 1), want));
        j += 1;
    }
    assert(marks@.subrange(0, marks@.len() as int) =~= marks@);
    let dash = String::from_str("-");
    proof {
        reveal_strlit("-");
        assert(seen.push(dash@).drop_last() =~= seen);
        seen = seen.push(dash@);
        assert(seen =~= base + mark_issues(marks@, want) + seq!["-"@]);
    }
    insert_name(&mut names, dash);
    names
}


/// Every completion list is a set: strictly ascending, so no name comes twice, and
/// it holds exactly the names it was built from.
pub proof fn lemma_names_are_a_set(names: Seq<Seq<char>>)
    ensures
        ascending(name_set(names)),
        forall|x: Seq<char>| name_set(names).contains(x) <==> names.contains(x),
    decreases names.len(),
{
    if names.len() > 0 {
        let rest = names.drop_last();
        lemma_names_are_a_set(rest);
        let before = name_set(rest);
        let x = names.last();
        let k = key_pos(before, x) as int;
        lemma_key_pos_le(before, x);
        let after = name_set(names);
        if !(0 <= k < before.len() && before[k] == x) {
            lemma_insert_ascending(before, x);
            assert(after == before.insert(k, x));
        } else {
            assert(after == before);
        }
        assert forall|y: Seq<char>| after.contains(y) <==> names.contains(y) by {
            if names.contains(y) {
                let i = choose|i: int| 0 <= i < names.len() && names[i] == y;
                if i < names.len() - 1 {
                    assert(rest[i] == y);
                    assert(rest.contains(y));
                    let j = choose|j: int| 0 <= j < before.len() && before[j] == y;
                    if after != before {
                        if j < k {
                            assert(after[j] == y);
                        } else {
                            assert(after[j + 1] == y);
                        }
                    }
                    assert(after.contains(y));
                } else if after != before {
                    assert(after[k] == y);
                } else {
                    assert(before[k] == y);
                }
            }
            if after.contains(y) {
                let j = choose|j: int| 0 <= j < after.len() && after[j] == y;
                if after != before && j == k {
                    assert(names[names.len() - 1] == y);
                } else {
                    let b = if after != before && j > k {
                        j - 1
                    } else {
                        j
                    };
                    assert(before[b] == y);
                    assert(before.contains(y));
                    assert(rest.contains(y));
                    let i = choose|i: int| 0 <= i < rest.len() && rest[i] == y;
                    assert(names[i] == y);
                }
            }
        }
    }
}

} // verus!
