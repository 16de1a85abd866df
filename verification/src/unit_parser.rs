//! Reading unit files: splitting the text into `[Section]`s of `Key = value` entries, and
//! turning those sections into unit configurations.
use vstd::prelude::*;

use crate::net::{SocketAddress, parse_socket_address, spec_socket_addr_v4, spec_socket_addr_v6};
use crate::sockets::{SocketConfig, SocketKind, SpecializedSocketConfig, TcpSocketConfig, UdpSocketConfig, UnixSocketConfig};
use crate::text::{
    first_index_of, is_ws, push_char, split_chars, split_on, string_of_range, to_chars,
    to_uppercase, trim, trim_bounds, trim_start_char, uppercase,
};

verus! {

/// One value of a section, numbered in the order in which the section's values appear.
pub struct Entry {
    pub number: u32,
    pub value: String,
}

/// The values given for one key of a section.
pub struct SectionEntry {
    pub key: String,
    pub entries: Vec<Entry>,
}

/// The entries of a section, one per key (upper-cased), in the order the keys first appear.
pub struct ParsedSection {
    pub items: Vec<SectionEntry>,
}

/// One section of a file under its header line (as written, with its brackets).
pub struct FileSection {
    pub name: String,
    pub section: ParsedSection,
}

/// The sections of a unit file, one per header, in the order the headers first appear.
pub struct ParsedFile {
    pub sections: Vec<FileSection>,
}

/// A section as plain values: each key with its numbered values.
pub type SectionModel = Seq<(Seq<char>, Seq<(u32, Seq<char>)>)>;

pub open spec fn entries_view(v: Seq<Entry>) -> Seq<(u32, Seq<char>)> {
    v.map_values(|e: Entry| (e.number, e.value@))
}

pub open spec fn items_view(v: Seq<SectionEntry>) -> SectionModel {
    v.map_values(|e: SectionEntry| (e.key@, entries_view(e.entries@)))
}

impl View for ParsedSection {
    type V = SectionModel;

    open spec fn view(&self) -> SectionModel {
        items_view(self.items@)
    }
}

pub open spec fn strings_view(v: Seq<String>) -> Seq<Seq<char>> {
    v.map_values(|s: String| s@)
}

/// The key and the values of a section line: `None` for a comment (`#` first) or a line
/// without `=`; else the trimmed, upper-cased text before the first `=`, and the text after
/// it, without leading `=`s, trimmed and split at every `,`.
pub open spec fn line_entry(line: Seq<char>) -> Option<(Seq<char>, Seq<Seq<char>>)> {
    if line.len() > 0 && line[0] == '#' {
        None
    } else {
        match first_index_of(line, '=') {
            Some(p) => Some(
                (
                    uppercase(trim(line.subrange(0, p))),
                    split_on(trim(trim_start_char(line.subrange(p, line.len() as int), '=')), ','),
                ),
            ),
            None => None,
        }
    }
}

/// The position of the entry for `key` in `sec`, if there is one.
pub open spec fn key_index(sec: SectionModel, key: Seq<char>) -> Option<int> {
    if exists|k: int| 0 <= k < sec.len() && #[trigger] sec[k].0 == key {
        Some(choose|k: int| 0 <= k < sec.len() && #[trigger] sec[k].0 == key)
    } else {
        None
    }
}

/// No key appears twice in `sec`.
pub open spec fn keys_unique(sec: SectionModel) -> bool {
    forall|a: int, b: int| 0 <= a < sec.len() && 0 <= b < sec.len() && #[trigger] sec[a].0 == #[trigger] sec[b].0 ==> a == b
}

/// `vals` numbered from `n` on.
pub open spec fn numbered(vals: Seq<Seq<char>>, n: nat) -> Seq<(u32, Seq<char>)> {
    Seq::new(vals.len(), |i: int| ((n + i) as u32, vals[i]))
}

/// `sec` with `vals`, numbered from `n` on, added to the entry for `key`.
pub open spec fn add_values(sec: SectionModel, key: Seq<char>, vals: Seq<Seq<char>>, n: nat) -> SectionModel {
    match key_index(sec, key) {
        Some(k) => sec.update(k, (key, sec[k].1 + numbered(vals, n))),
        None => sec.push((key, numbered(vals, n))),
    }
}

/// The section that `lines` make, with the number of values it holds.
pub open spec fn section_fold(lines: Seq<Seq<char>>) -> (SectionModel, nat)
    decreases lines.len(),
{
    if lines.len() == 0 {
        (Seq::empty(), 0)
    } else {
        let (sec, n) = section_fold(lines.drop_last());
        match line_entry(lines.last()) {
            Some((key, vals)) => (add_values(sec, key, vals, n), n + vals.len()),
            None => (sec, n),
        }
    }
}

/// The section that `lines` make.
pub open spec fn section_of(lines: Seq<Seq<char>>) -> SectionModel {
    section_fold(lines).0
}

proof fn lemma_trim_start_char_skip(s: Seq<char>, c: char, i: int)
    requires
        0 <= i <= s.len(),
        forall|j: int| 0 <= j < i ==> s[j] == c,
    ensures
        trim_start_char(s, c) == trim_start_char(s.subrange(i, s.len() as int), c),
    decreases i,
{
    if i > 0 {
        assert(s.drop_first().subrange(i - 1, s.drop_first().len() as int) =~= s.subrange(i, s.len() as int));
        lemma_trim_start_char_skip(s.drop_first(), c, i - 1);
    } else {
        assert(s.subrange(0, s.len() as int) =~= s);
    }
}

/// The key and values of one section line (see `line_entry`).
pub fn parse_line(line: &String) -> (res: Option<(String, Vec<String>)>)
    ensures
        match res {
            Some((k, vs)) => line_entry(line@) == Some((k@, strings_view(vs@))),
            None => line_entry(line@) is None,
        },
{
    let chars = to_chars(line.as_str());
    if chars.len() > 0 && chars[0] == '#' {
        return None;
    }
    let p = match crate::text::find_char(&chars, '=') {
        Some(p) => p,
        None => return None,
    };
    let (a, b) = trim_bounds(&chars, 0, p);
    let raw_name = string_of_range(&chars, a, b);
    let name = to_uppercase(raw_name.as_str());
    let mut q = p;
    while q < chars.len() && chars[q] == '='
        invariant
            p <= q <= chars@.len(),
            forall|j: int| p <= j < q ==> chars@[j] == '=',
        decreases chars.len() - q,
    {
        q = q + 1;
    }
    proof {
        let tail = chars@.subrange(p as int, chars@.len() as int);
        lemma_trim_start_char_skip(tail, '=', q - p);
        assert(tail.subrange(q - p, tail.len() as int) =~= chars@.subrange(q as int, chars@.len() as int));
        let rest = chars@.subrange(q as int, chars@.len() as int);
        if rest.len() > 0 {
            assert(rest[0] == chars@[q as int]);
        }
        assert(trim_start_char(rest, '=') == rest);
    }
    let (c, d) = trim_bounds(&chars, q, chars.len());
    let value = crate::net::chars_range(&chars, c, d);
    let vals = split_chars(&value, ',');
    proof {
        assert(strings_view(vals@) =~= split_on(value@, ','));
    }
    Some((name, vals))
}

/// The values `vals`, numbered from `n` on.
fn numbered_entries(vals: &Vec<String>, n: u32) -> (res: Vec<Entry>)
    requires
        n + vals@.len() <= u32::MAX,
    ensures
        entries_view(res@) == numbered(strings_view(vals@), n as nat),
{
    let mut res: Vec<Entry> = Vec::new();
    let mut j: usize = 0;
    while j < vals.len()
        invariant
            j <= vals@.len(),
            n + vals@.len() <= u32::MAX,
            res@.len() == j,
            forall|i: int| 0 <= i < j ==> (#[trigger] res@[i]).number == n + i && res@[i].value@ == vals@[i]@,
        decreases vals.len() - j,
    {
        let e = Entry { number: n + j as u32, value: vals[j].clone() };
        res.push(e);
        j = j + 1;
    }
    proof {
        assert(entries_view(res@) =~= numbered(strings_view(vals@), n as nat));
    }
    res
}

/// Adds `vals`, numbered from `n` on, to the entry for `key` in `items`.
fn add_section_values(items: &mut Vec<SectionEntry>, key: String, vals: &Vec<String>, n: u32)
    requires
        keys_unique(items_view(old(items)@)),
        n + vals@.len() <= u32::MAX,
    ensures
        items_view(final(items)@) == add_values(items_view(old(items)@), key@, strings_view(vals@), n as nat),
        keys_unique(items_view(final(items)@)),
{
    let ghost sec = items_view(items@);
    let new_entries = numbered_entries(vals, n);
    let mut k: usize = 0;
    while k < items.len()
        invariant
            k <= items@.len(),
            sec == items_view(items@),
            sec == items_view(old(items)@),
            keys_unique(sec),
            entries_view(new_entries@) == numbered(strings_view(vals@), n as nat),
            forall|m: int| 0 <= m < k ==> items@[m].key@ != key@,
        decreases items.len() - k,
    {
        if items[k].key == key {
            proof {
                assert(sec[k as int].0 == key@);
                let c = choose|c: int| 0 <= c < sec.len() && #[trigger] sec[c].0 == key@;
                assert(c == k as int);
                assert(key_index(sec, key@) == Some(k as int));
            }
            let ghost old_items = items@;
            let mut e = items.remove(k);
            let mut j: usize = 0;
            let ghost start = e.entries@;
            proof {
                assert(e == old_items[k as int]);
                assert(sec[k as int].1 == entries_view(start));
            }
            while j < new_entries.len()
                invariant
                    j <= new_entries@.len(),
                    e.key@ == key@,
                    e.entries@ == start + new_entries@.take(j as int),
                decreases new_entries.len() - j,
            {
                let x = Entry { number: new_entries[j].number, value: new_entries[j].value.clone() };
                e.entries.push(x);
                proof {
                    assert(start + new_entries@.take(j + 1) =~= (start + new_entries@.take(j as int)).push(
                        new_entries@[j as int],
                    ));
                }
                j = j + 1;
            }
            proof {
                assert(new_entries@.take(new_entries@.len() as int) =~= new_entries@);
                assert(entries_view(e.entries@) =~= entries_view(start) + entries_view(new_entries@));
            }
            let ghost e_view = (e.key@, entries_view(e.entries@));
            items.insert(k, e);
            proof {
                assert(items@ =~= old_items.update(k as int, e));
                assert(e_view.0 == key@);
                assert(e_view.1 == sec[k as int].1 + numbered(strings_view(vals@), n as nat));
                assert(items_view(items@) =~= sec.update(k as int, e_view));
                assert(items_view(items@) =~= sec.update(
                    k as int,
                    (key@, sec[k as int].1 + numbered(strings_view(vals@), n as nat)),
                ));
            }
            return;
        }
        k = k + 1;
    }
    proof {
        assert(!(exists|c: int| 0 <= c < sec.len() && #[trigger] sec[c].0 == key@));
    }
    items.push(SectionEntry { key, entries: new_entries });
    proof {
        assert(items_view(items@) =~= sec.push((key@, numbered(strings_view(vals@), n as nat))));
    }
}

proof fn lemma_section_count_grows(lines: Seq<Seq<char>>, i: int)
    requires
        0 <= i <= lines.len(),
    ensures
        section_fold(lines.take(i)).1 <= section_fold(lines).1,
    decreases lines.len() - i,
{
    if i < lines.len() {
        lemma_section_count_grows(lines, i + 1);
        assert(lines.take(i + 1).drop_last() =~= lines.take(i));
    } else {
        assert(lines.take(i) =~= lines);
    }
}

/// The section that `lines` make: for each line that is neither a comment nor without
/// `=`, its values are added, numbered on from the values before, to the entry for its key.
pub fn parse_section(lines: &Vec<String>) -> (res: ParsedSection)
    requires
        section_fold(strings_view(lines@)).1 <= u32::MAX,
    ensures
        res@ == section_of(strings_view(lines@)),
        keys_unique(res@),
        numbers_distinct(res@),
{
    let ghost ls = strings_view(lines@);
    let mut items: Vec<SectionEntry> = Vec::new();
    let mut n: u32 = 0;
    let mut i: usize = 0;
    proof {
        assert(ls.take(0) =~= Seq::<Seq<char>>::empty());
    }
    while i < lines.len()
        invariant
            i <= lines@.len(),
            ls == strings_view(lines@),
            section_fold(ls).1 <= u32::MAX,
            items_view(items@) == section_fold(ls.take(i as int)).0,
            n == section_fold(ls.take(i as int)).1,
            keys_unique(items_view(items@)),
            numbers_below(items_view(items@), n as nat),
            numbers_distinct(items_view(items@)),
        decreases lines.len() - i,
    {
        proof {
            assert(ls.take(i + 1).drop_last() =~= ls.take(i as int));
            assert(ls.take(i + 1).last() == lines@[i as int]@);
            lemma_section_count_grows(ls, i + 1);
        }
        match parse_line(&lines[i]) {
            Some((key, vals)) => {
                proof {
                    lemma_add_values_numbers(items_view(items@), key@, strings_view(vals@), n as nat);
                }
                add_section_values(&mut items, key, &vals, n);
                n = n + vals.len() as u32;
            },
            None => {},
        }
        i = i + 1;
    }
    proof {
        assert(ls.take(lines@.len() as int) =~= ls);
    }
    ParsedSection { items }
}

/// A unit file as plain values: each section header with its section.
pub type FileModel = Seq<(Seq<char>, SectionModel)>;

impl View for ParsedFile {
    type V = FileModel;

    open spec fn view(&self) -> FileModel {
        self.sections@.map_values(|fs: FileSection| (fs.name@, fs.section@))
    }
}

/// A line that starts a section: its text without surrounding whitespace begins with `[`.
pub open spec fn is_header(line: Seq<char>) -> bool {
    crate::text::trim(line).len() > 0 && crate::text::trim(line)[0] == '['
}

/// Some line of `lines` starts a section.
pub open spec fn has_header(lines: Seq<Seq<char>>) -> bool {
    exists|k: int| 0 <= k < lines.len() && #[trigger] is_header(lines[k])
}

/// The position of the first line of `lines` that starts a section.
pub open spec fn first_header(lines: Seq<Seq<char>>) -> int {
    choose|k: int| 0 <= k < lines.len() && #[trigger] is_header(lines[k]) && forall|j: int| 0 <= j < k ==> !is_header(lines[j])
}

/// No header appears twice in `f`.
pub open spec fn headers_unique(f: FileModel) -> bool {
    forall|a: int, b: int| 0 <= a < f.len() && 0 <= b < f.len() && #[trigger] f[a].0 == #[trigger] f[b].0 ==> a == b
}

/// `f` with `sec` stored under `name`, in place of what was stored there before.
pub open spec fn file_insert(f: FileModel, name: Seq<char>, sec: SectionModel) -> FileModel {
    if exists|k: int| 0 <= k < f.len() && #[trigger] f[k].0 == name {
        let k = choose|k: int| 0 <= k < f.len() && #[trigger] f[k].0 == name;
        f.update(k, (name, sec))
    } else {
        f.push((name, sec))
    }
}

/// Reading the lines `body` that follow the header `header`: the sections finished so
/// far, the header of the current section, and its lines so far.
pub open spec fn file_fold(body: Seq<Seq<char>>, header: Seq<char>) -> (FileModel, Seq<char>, Seq<Seq<char>>)
    decreases body.len(),
{
    if body.len() == 0 {
        (Seq::empty(), header, Seq::empty())
    } else {
        let (f, cur, ls) = file_fold(body.drop_last(), header);
        let line = body.last();
        if is_header(line) {
            (file_insert(f, cur, section_of(ls)), crate::text::trim(line), Seq::empty())
        } else {
            (f, cur, ls.push(line))
        }
    }
}

/// The sections of the text `content`: lines before the first header are left out, and
/// each header starts a section made of the lines up to the next header, stored under the
/// header without surrounding whitespace; a header that appears again replaces the
/// section stored under it.
pub open spec fn file_of(content: Seq<char>) -> FileModel {
    let lines = split_on(content, '\n');
    let h = first_header(lines);
    let (f, cur, ls) = file_fold(lines.subrange(h + 1, lines.len() as int), crate::text::trim(lines[h]));
    file_insert(f, cur, section_of(ls))
}

/// Every run of consecutive lines of `lines` holds at most `u32::MAX` values.
pub open spec fn values_fit(lines: Seq<Seq<char>>) -> bool {
    forall|a: int, b: int| 0 <= a <= b <= lines.len() ==> #[trigger] section_fold(lines.subrange(a, b)).1 <= u32::MAX
}

/// Each key of section `sec` appears once, and no two of its values share a number.
pub open spec fn section_wf(sec: SectionModel) -> bool {
    keys_unique(sec) && numbers_distinct(sec)
}

/// Every section of `f` is well formed (see `section_wf`).
pub open spec fn sections_wf(f: FileModel) -> bool {
    forall|k: int| 0 <= k < f.len() ==> section_wf(#[trigger] f[k].1)
}

/// Stores `sec` under `name` in `sections`, replacing what was stored there before.
fn insert_section(sections: &mut Vec<FileSection>, name: String, sec: ParsedSection)
    requires
        headers_unique(old(sections)@.map_values(|fs: FileSection| (fs.name@, fs.section@))),
        sections_wf(old(sections)@.map_values(|fs: FileSection| (fs.name@, fs.section@))),
        section_wf(sec@),
    ensures
        sections_wf(final(sections)@.map_values(|fs: FileSection| (fs.name@, fs.section@))),
        final(sections)@.map_values(|fs: FileSection| (fs.name@, fs.section@)) == file_insert(
            old(sections)@.map_values(|fs: FileSection| (fs.name@, fs.section@)),
            name@,
            sec@,
        ),
        headers_unique(final(sections)@.map_values(|fs: FileSection| (fs.name@, fs.section@))),
{
    let ghost f = sections@.map_values(|fs: FileSection| (fs.name@, fs.section@));
    let mut k: usize = 0;
    while k < sections.len()
        invariant
            k <= sections@.len(),
            f == sections@.map_values(|fs: FileSection| (fs.name@, fs.section@)),
            f == old(sections)@.map_values(|fs: FileSection| (fs.name@, fs.section@)),
            headers_unique(f),
            sections_wf(f),
            section_wf(sec@),
            forall|m: int| 0 <= m < k ==> sections@[m].name@ != name@,
        decreases sections.len() - k,
    {
        if sections[k].name == name {
            proof {
                assert(f[k as int].0 == name@);
                let c = choose|c: int| 0 <= c < f.len() && #[trigger] f[c].0 == name@;
                assert(c == k as int);
            }
            let ghost old_sections = sections@;
            sections.remove(k);
            sections.insert(k, FileSection { name, section: sec });
            proof {
                let g = sections@.map_values(|fs: FileSection| (fs.name@, fs.section@));
                assert(g =~= f.update(k as int, (name@, sec@)));
                assert forall|m: int| 0 <= m < g.len() implies section_wf(#[trigger] g[m].1) by {
                    if m != k as int {
                        assert(g[m] == f[m]);
                    }
                }
            }
            return;
        }
        k = k + 1;
    }
    proof {
        assert(!(exists|c: int| 0 <= c < f.len() && #[trigger] f[c].0 == name@));
    }
    sections.push(FileSection { name, section: sec });
    proof {
        let g = sections@.map_values(|fs: FileSection| (fs.name@, fs.section@));
        assert(g =~= f.push((name@, sec@)));
        assert forall|m: int| 0 <= m < g.len() implies section_wf(#[trigger] g[m].1) by {
            if m < f.len() {
                assert(g[m] == f[m]);
            }
        }
    }
}

/// The text of `lines[a..b]`, one string per line.
fn lines_range(lines: &Vec<String>, a: usize, b: usize) -> (res: Vec<String>)
    requires
        a <= b <= lines@.len(),
    ensures
        strings_view(res@) == strings_view(lines@).subrange(a as int, b as int),
{
    let mut res: Vec<String> = Vec::new();
    let mut i = a;
    while i < b
        invariant
            a <= i <= b <= lines@.len(),
            res@.len() == i - a,
            forall|m: int| 0 <= m < i - a ==> (#[trigger] res@[m])@ == lines@[a + m]@,
        decreases b - i,
    {
        res.push(lines[i].clone());
        i = i + 1;
    }
    proof {
        assert(strings_view(res@) =~= strings_view(lines@).subrange(a as int, b as int));
    }
    res
}

/// Whether `line` starts a section.
fn starts_section(line: &String) -> (res: bool)
    ensures
        res == is_header(line@),
{
    let c = crate::text::trim_chars(&to_chars(line.as_str()));
    c.len() > 0 && c[0] == '['
}

/// `line` without surrounding whitespace.
fn trimmed(line: &String) -> (res: String)
    ensures
        res@ == crate::text::trim(line@),
{
    crate::text::string_of(&crate::text::trim_chars(&to_chars(line.as_str())))
}

/// The sections of the text `content` (see `file_of`).
pub fn parse_file(content: &str) -> (res: ParsedFile)
    requires
        has_header(split_on(content@, '\n')),
        values_fit(split_on(content@, '\n')),
    ensures
        res@ == file_of(content@),
        file_wf(res@),
        sections_wf(res@),
{
    let chars = to_chars(content);
    let lines = split_chars(&chars, '\n');
    let ghost ls = split_on(content@, '\n');
    proof {
        assert(strings_view(lines@) =~= ls);
    }
    let mut h: usize = 0;
    while h < lines.len() && !starts_section(&lines[h])
        invariant
            h <= lines@.len(),
            strings_view(lines@) == ls,
            has_header(ls),
            forall|j: int| 0 <= j < h ==> !is_header(ls[j]),
        decreases lines.len() - h,
    {
        h = h + 1;
    }
    proof {
        if h == lines@.len() {
            let k = choose|k: int| 0 <= k < ls.len() && #[trigger] is_header(ls[k]);
            assert(!is_header(ls[k]));
        }
        assert(is_header(ls[h as int]));
        let c = choose|c: int| 0 <= c < ls.len() && #[trigger] is_header(ls[c]) && forall|j: int| 0 <= j < c ==> !is_header(ls[j]);
        assert(c == h as int) by {
            if c < h {
                assert(!is_header(ls[c]));
            } else if c > h {
                assert(!is_header(ls[h as int]));
            }
        }
    }
    let mut sections: Vec<FileSection> = Vec::new();
    let mut current_name = trimmed(&lines[h]);
    let mut start = h + 1;
    let mut i = h + 1;
    let ghost body_start = (h + 1) as int;
    proof {
        assert(ls.subrange(body_start, i as int) =~= Seq::<Seq<char>>::empty());
    }
    while i < lines.len()
        invariant
            h < lines@.len(),
            body_start == h + 1,
            body_start <= start <= i <= lines@.len(),
            strings_view(lines@) == ls,
            values_fit(ls),
            ({
                let (f, cur, cl) = file_fold(ls.subrange(body_start, i as int), crate::text::trim(ls[h as int]));
                &&& sections@.map_values(|fs: FileSection| (fs.name@, fs.section@)) == f
                &&& current_name@ == cur
                &&& cl == ls.subrange(start as int, i as int)
            }),
            headers_unique(sections@.map_values(|fs: FileSection| (fs.name@, fs.section@))),
            sections_wf(sections@.map_values(|fs: FileSection| (fs.name@, fs.section@))),
        decreases lines.len() - i,
    {
        proof {
            let body = ls.subrange(body_start, i + 1);
            assert(body.drop_last() =~= ls.subrange(body_start, i as int));
            assert(body.last() == ls[i as int]);
        }
        if starts_section(&lines[i]) {
            let cur_lines = lines_range(&lines, start, i);
            proof {
                assert(section_fold(ls.subrange(start as int, i as int)).1 <= u32::MAX);
            }
            let sec = parse_section(&cur_lines);
            let name = current_name;
            insert_section(&mut sections, name, sec);
            current_name = trimmed(&lines[i]);
            start = i + 1;
            proof {
                assert(ls.subrange(start as int, i + 1) =~= Seq::<Seq<char>>::empty());
            }
        } else {
            proof {
                assert(ls.subrange(start as int, i + 1) =~= ls.subrange(start as int, i as int).push(ls[i as int]));
            }
        }
        i = i + 1;
    }
    let cur_lines = lines_range(&lines, start, lines.len());
    proof {
        assert(section_fold(ls.subrange(start as int, lines@.len() as int)).1 <= u32::MAX);
    }
    let sec = parse_section(&cur_lines);
    insert_section(&mut sections, current_name, sec);
    let res = ParsedFile { sections };
    proof {
        assert forall|k: int| 0 <= k < res@.len() implies keys_unique(#[trigger] res@[k].1) by {
            assert(section_wf(res@[k].1));
        }
    }
    res
}

/// How many values `lines` can hold at most: each line one more than its length.
pub open spec fn lines_weight(lines: Seq<Seq<char>>) -> nat
    decreases lines.len(),
{
    if lines.len() == 0 {
        0
    } else {
        lines_weight(lines.drop_last()) + lines.last().len() + 1
    }
}

proof fn lemma_weight_append(x: Seq<Seq<char>>, y: Seq<Seq<char>>)
    ensures
        lines_weight(x + y) == lines_weight(x) + lines_weight(y),
    decreases y.len(),
{
    if y.len() == 0 {
        assert(x + y =~= x);
    } else {
        assert((x + y).drop_last() =~= x + y.drop_last());
        lemma_weight_append(x, y.drop_last());
    }
}

proof fn lemma_weight_subrange(lines: Seq<Seq<char>>, a: int, b: int)
    requires
        0 <= a <= b <= lines.len(),
    ensures
        lines_weight(lines.subrange(a, b)) <= lines_weight(lines),
{
    assert(lines =~= lines.subrange(0, a) + lines.subrange(a, b) + lines.subrange(b, lines.len() as int));
    lemma_weight_append(lines.subrange(0, a) + lines.subrange(a, b), lines.subrange(b, lines.len() as int));
    lemma_weight_append(lines.subrange(0, a), lines.subrange(a, b));
}

proof fn lemma_split_weight(s: Seq<char>, sep: char)
    ensures
        lines_weight(split_on(s, sep)) == s.len() + 1,
    decreases s.len(),
{
    if s.len() == 0 {
        let e = seq![Seq::<char>::empty()];
        assert(e.drop_last() =~= Seq::<Seq<char>>::empty());
        assert(lines_weight(e.drop_last()) == 0);
    } else {
        let p = split_on(s.drop_last(), sep);
        lemma_split_weight(s.drop_last(), sep);
        crate::text::lemma_split_nonempty(s.drop_last(), sep);
        if s.last() == sep {
            assert(p.push(Seq::<char>::empty()).drop_last() =~= p);
        } else {
            let q = p.update(p.len() - 1, p.last().push(s.last()));
            assert(q.drop_last() =~= p.drop_last());
        }
    }
}

proof fn lemma_split_len(s: Seq<char>, sep: char)
    ensures
        split_on(s, sep).len() <= s.len() + 1,
    decreases s.len(),
{
    if s.len() > 0 {
        lemma_split_len(s.drop_last(), sep);
        crate::text::lemma_split_nonempty(s.drop_last(), sep);
    }
}

proof fn lemma_trim_len(s: Seq<char>)
    ensures
        crate::text::trim_start(s).len() <= s.len(),
        crate::text::trim_end(s).len() <= s.len(),
    decreases s.len(),
{
    if s.len() > 0 {
        lemma_trim_len(s.drop_first());
        lemma_trim_len(s.drop_last());
    }
}

proof fn lemma_trim_start_char_len(s: Seq<char>, c: char)
    ensures
        trim_start_char(s, c).len() <= s.len(),
    decreases s.len(),
{
    if s.len() > 0 {
        lemma_trim_start_char_len(s.drop_first(), c);
    }
}

proof fn lemma_line_values(line: Seq<char>)
    ensures
        line_entry(line) matches Some(e) ==> e.1.len() <= line.len() + 1,
{
    if line_entry(line) is Some {
        crate::text::lemma_first_index_bounds(line, '=');
        let p = first_index_of(line, '=')->0;
        let after = line.subrange(p, line.len() as int);
        let t = trim_start_char(after, '=');
        lemma_trim_start_char_len(after, '=');
        lemma_trim_len(t);
        lemma_trim_len(crate::text::trim_start(t));
        lemma_split_len(trim(t), ',');
    }
}

proof fn lemma_fold_weight(lines: Seq<Seq<char>>)
    ensures
        section_fold(lines).1 <= lines_weight(lines),
    decreases lines.len(),
{
    if lines.len() > 0 {
        lemma_fold_weight(lines.drop_last());
        lemma_line_values(lines.last());
    }
}

proof fn lemma_short_text_fits(content: Seq<char>)
    requires
        content.len() < u32::MAX,
    ensures
        values_fit(split_on(content, '\n')),
{
    let lines = split_on(content, '\n');
    lemma_split_weight(content, '\n');
    assert forall|a: int, b: int| 0 <= a <= b <= lines.len() implies #[trigger] section_fold(lines.subrange(a, b)).1 <= u32::MAX by {
        lemma_fold_weight(lines.subrange(a, b));
        lemma_weight_subrange(lines, a, b);
    }
}

/// Whether some line of `content` starts a section.
fn text_has_header(content: &str) -> (res: bool)
    ensures
        res == has_header(split_on(content@, '\n')),
{
    let chars = to_chars(content);
    let lines = split_chars(&chars, '\n');
    let ghost ls = split_on(content@, '\n');
    let mut k: usize = 0;
    while k < lines.len()
        invariant
            k <= lines@.len(),
            lines@.len() == ls.len(),
            ls == split_on(content@, '\n'),
            forall|m: int| 0 <= m < lines@.len() ==> #[trigger] lines@[m]@ == ls[m],
            forall|m: int| 0 <= m < k ==> !is_header(#[trigger] ls[m]),
        decreases lines.len() - k,
    {
        if starts_section(&lines[k]) {
            proof {
                assert(is_header(ls[k as int]));
            }
            return true;
        }
        k = k + 1;
    }
    false
}

/// The sections of the text of a unit file (see `parse_file`), where it can be read: none
/// where no line starts a section (there is nothing to read then), or where the text is
/// too long for its values to be numbered (`u32::MAX` characters or more).
pub fn parse_unit_file(content: &str) -> (res: Option<ParsedFile>)
    ensures
        match res {
            Some(f) => f@ == file_of(content@) && file_wf(f@) && sections_wf(f@),
            None => !has_header(split_on(content@, '\n')) || content@.len() >= u32::MAX,
        },
{
    if content.unicode_len() >= 4294967295 {
        return None;
    }
    if !text_has_header(content) {
        return None;
    }
    proof {
        lemma_short_text_fits(content@);
    }
    Some(parse_file(content))
}

/// The numbered values given for `key` in `sec` (none where the key is absent).
pub open spec fn entries_for(sec: SectionModel, key: Seq<char>) -> Seq<(u32, Seq<char>)> {
    match key_index(sec, key) {
        Some(k) => sec[k].1,
        None => Seq::empty(),
    }
}

/// The values given for `key` in `sec`, in order, without their numbers.
pub open spec fn values_for(sec: SectionModel, key: Seq<char>) -> Seq<Seq<char>> {
    entries_for(sec, key).map_values(|e: (u32, Seq<char>)| e.1)
}

/// Whether the characters of `s` are those of `lit`.
pub fn eq_lit(s: &String, lit: &str) -> (res: bool)
    ensures
        res == (s@ == lit@),
{
    let a = to_chars(s.as_str());
    let b = to_chars(lit);
    crate::text::chars_eq(&a, &b)
}

/// The entries given for `key` in `section`, if the key is there.
pub fn get_entries<'a>(section: &'a ParsedSection, key: &str) -> (res: Option<&'a Vec<Entry>>)
    requires
        keys_unique(section@),
    ensures
        match res {
            Some(v) => key_index(section@, key@) is Some && entries_view(v@) == entries_for(section@, key@),
            None => key_index(section@, key@) is None,
        },
{
    let mut k: usize = 0;
    while k < section.items.len()
        invariant
            k <= section.items@.len(),
            keys_unique(section@),
            forall|m: int| 0 <= m < k ==> section.items@[m].key@ != key@,
        decreases section.items.len() - k,
    {
        if eq_lit(&section.items[k].key, key) {
            proof {
                assert(section@[k as int].0 == key@);
                let c = choose|c: int| 0 <= c < section@.len() && #[trigger] section@[c].0 == key@;
                assert(c == k as int);
            }
            return Some(&section.items[k].entries);
        }
        k = k + 1;
    }
    proof {
        assert(!(exists|c: int| 0 <= c < section@.len() && #[trigger] section@[c].0 == key@));
    }
    None
}

/// The values of `v`, without their numbers.
pub fn map_tupels_to_second(v: &Vec<Entry>) -> (res: Vec<String>)
    ensures
        strings_view(res@) == entries_view(v@).map_values(|e: (u32, Seq<char>)| e.1),
{
    let mut res: Vec<String> = Vec::new();
    let mut i: usize = 0;
    while i < v.len()
        invariant
            i <= v@.len(),
            res@.len() == i,
            forall|m: int| 0 <= m < i ==> (#[trigger] res@[m])@ == v@[m].value@,
        decreases v.len() - i,
    {
        res.push(v[i].value.clone());
        i = i + 1;
    }
    proof {
        assert(strings_view(res@) =~= entries_view(v@).map_values(|e: (u32, Seq<char>)| e.1));
    }
    res
}

/// The values given for `key` in `section` (none where the key is absent).
pub fn values_of(section: &ParsedSection, key: &str) -> (res: Vec<String>)
    requires
        keys_unique(section@),
    ensures
        strings_view(res@) == values_for(section@, key@),
{
    match get_entries(section, key) {
        Some(v) => map_tupels_to_second(v),
        None => {
            proof {
                assert(values_for(section@, key@) =~= Seq::<Seq<char>>::empty());
            }
            Vec::new()
        },
    }
}

/// The `[Unit]` section of the unit file at `path`: what the unit wants, requires, and
/// is ordered before and after.
pub fn parse_unit_section(section: &ParsedSection, path: &String) -> (res: crate::units::UnitConfig)
    requires
        keys_unique(section@),
    ensures
        res.filepath@ == path@,
        strings_view(res.wants@) == values_for(section@, "WANTS"@),
        strings_view(res.requires@) == values_for(section@, "REQUIRES"@),
        strings_view(res.after@) == values_for(section@, "AFTER"@),
        strings_view(res.before@) == values_for(section@, "BEFORE"@),
{
    crate::units::UnitConfig {
        filepath: path.clone(),
        wants: values_of(section, "WANTS"),
        requires: values_of(section, "REQUIRES"),
        after: values_of(section, "AFTER"),
        before: values_of(section, "BEFORE"),
    }
}

/// The `[Install]` section of a unit file: the units that want or require this one.
pub fn parse_install_section(section: &ParsedSection) -> (res: crate::units::InstallConfig)
    requires
        keys_unique(section@),
    ensures
        strings_view(res.wanted_by@) == values_for(section@, "WANTEDBY"@),
        strings_view(res.required_by@) == values_for(section@, "REQUIREDBY"@),
{
    crate::units::InstallConfig {
        wanted_by: values_of(section, "WANTEDBY"),
        required_by: values_of(section, "REQUIREDBY"),
    }
}

/// What a yes/no value means: `YES`, `TRUE` and `0` are yes, anything else is no.
pub open spec fn spec_string_to_bool(s: Seq<char>) -> bool {
    s == "YES"@ || s == "TRUE"@ || s == "0"@
}

/// Reads a yes/no value (see `spec_string_to_bool`); the value must not be empty.
pub fn string_to_bool(s: &String) -> (res: bool)
    requires
        s@.len() > 0,
    ensures
        res == spec_string_to_bool(s@),
{
    eq_lit(s, "YES") || eq_lit(s, "TRUE") || eq_lit(s, "0")
}

/// Whether `addr` is the path of a unix socket: absolute, or relative starting with `./`.
pub open spec fn spec_is_unix_addr(addr: Seq<char>) -> bool {
    (addr.len() >= 1 && addr[0] == '/') || (addr.len() >= 2 && addr[0] == '.' && addr[1] == '/')
}

/// `addr` itself if it is the path of a unix socket (see `spec_is_unix_addr`).
pub fn parse_unix_addr(addr: &String) -> (res: Result<String, ()>)
    ensures
        match res {
            Ok(a) => spec_is_unix_addr(addr@) && a@ == addr@,
            Err(_) => !spec_is_unix_addr(addr@),
        },
{
    let c = to_chars(addr.as_str());
    if (c.len() >= 1 && c[0] == '/') || (c.len() >= 2 && c[0] == '.' && c[1] == '/') {
        Ok(addr.clone())
    } else {
        Err(())
    }
}

/// `key` is absent from `sec` or has exactly one value.
pub open spec fn at_most_one(sec: SectionModel, key: Seq<char>) -> bool {
    key_index(sec, key) is Some ==> entries_for(sec, key).len() == 1
}

/// The one value given for `key` in `sec` (meaningful where it has one).
pub open spec fn single_value(sec: SectionModel, key: Seq<char>) -> Seq<char> {
    entries_for(sec, key)[0].1
}

/// The single value for `key`, or the empty text where the key is absent.
pub open spec fn single_or_empty(sec: SectionModel, key: Seq<char>) -> Seq<char> {
    if key_index(sec, key) is Some {
        single_value(sec, key)
    } else {
        Seq::empty()
    }
}

/// A `[Service]` section the parser accepts: `ExecStart`, `ExecStop`, `Keep_Alive`, `Accept`,
/// `Type` and `NotifyAccess` each given at most once, the two yes/no values not empty,
/// `Type` one of `simple` and `notify`, and `NotifyAccess` one of `all`, `main`, `exec`
/// and `none`.
pub open spec fn service_section_ok(sec: SectionModel) -> bool {
    &&& keys_unique(sec)
    &&& at_most_one(sec, "EXECSTART"@)
    &&& at_most_one(sec, "EXECSTOP"@)
    &&& at_most_one(sec, "KEEP_ALIVE"@)
    &&& at_most_one(sec, "ACCEPT"@)
    &&& at_most_one(sec, "TYPE"@)
    &&& at_most_one(sec, "NOTIFYACCESS"@)
    &&& key_index(sec, "KEEP_ALIVE"@) is Some ==> single_value(sec, "KEEP_ALIVE"@).len() > 0
    &&& key_index(sec, "ACCEPT"@) is Some ==> single_value(sec, "ACCEPT"@).len() > 0
    &&& key_index(sec, "TYPE"@) is Some ==> (single_value(sec, "TYPE"@) == "simple"@ || single_value(
        sec,
        "TYPE"@,
    ) == "notify"@)
    &&& key_index(sec, "NOTIFYACCESS"@) is Some ==> {
        let v = single_value(sec, "NOTIFYACCESS"@);
        v == "all"@ || v == "main"@ || v == "exec"@ || v == "none"@
    }
}

/// The service type a `[Service]` section asks for (`simple` where none is given).
pub open spec fn spec_service_type(sec: SectionModel) -> crate::units::ServiceType {
    if key_index(sec, "TYPE"@) is Some && single_value(sec, "TYPE"@) == "notify"@ {
        crate::units::ServiceType::Notify
    } else {
        crate::units::ServiceType::Simple
    }
}

/// Who may send notifications, as a `[Service]` section says (`main` where none is given).
pub open spec fn spec_notify_access(sec: SectionModel) -> crate::units::NotifyKind {
    if key_index(sec, "NOTIFYACCESS"@) is None {
        crate::units::NotifyKind::Main
    } else {
        let v = single_value(sec, "NOTIFYACCESS"@);
        if v == "all"@ {
            crate::units::NotifyKind::All
        } else if v == "exec"@ {
            crate::units::NotifyKind::Exec
        } else if v == "none"@ {
            crate::units::NotifyKind::NoAccess
        } else {
            crate::units::NotifyKind::Main
        }
    }
}

/// Each accepted `NotifyAccess` value names the processes it lets notify: `all` any process
/// of the service, `main` its main process, `exec` the processes it runs, `none` no
/// process; without the key the main process may notify.
pub proof fn law_notify_access_names_its_kind(sec: SectionModel)
    ensures
        key_index(sec, "NOTIFYACCESS"@) is None ==> spec_notify_access(sec) is Main,
        key_index(sec, "NOTIFYACCESS"@) is Some ==> {
            let v = single_value(sec, "NOTIFYACCESS"@);
            &&& v == "all"@ ==> spec_notify_access(sec) is All
            &&& v == "main"@ ==> spec_notify_access(sec) is Main
            &&& v == "exec"@ ==> spec_notify_access(sec) is Exec
            &&& v == "none"@ ==> spec_notify_access(sec) is NoAccess
        },
{
    reveal_strlit("all");
    reveal_strlit("main");
    reveal_strlit("exec");
    reveal_strlit("none");
    assert("main"@[0] != "all"@[0]);
    assert("main"@[0] != "exec"@[0]);
    assert("main"@[0] != "none"@[0]);
    assert("exec"@[0] != "all"@[0]);
    assert("none"@[0] != "all"@[0]);
    assert("none"@[0] != "exec"@[0]);
}

/// A yes/no setting of a `[Service]` section (no where it is absent).
pub open spec fn spec_flag(sec: SectionModel, key: Seq<char>) -> bool {
    key_index(sec, key) is Some && spec_string_to_bool(single_value(sec, key))
}

/// The single value for `key`, or the empty string where the key is absent.
fn single_string(section: &ParsedSection, key: &str) -> (res: String)
    requires
        keys_unique(section@),
        at_most_one(section@, key@),
    ensures
        res@ == single_or_empty(section@, key@),
{
    match get_entries(section, key) {
        Some(v) => v[0].value.clone(),
        None => String::new(),
    }
}

/// A yes/no setting of a `[Service]` section (see `spec_flag`).
fn flag(section: &ParsedSection, key: &str) -> (res: bool)
    requires
        keys_unique(section@),
        at_most_one(section@, key@),
        key_index(section@, key@) is Some ==> single_value(section@, key@).len() > 0,
    ensures
        res == spec_flag(section@, key@),
{
    match get_entries(section, key) {
        Some(v) => string_to_bool(&v[0].value),
        None => false,
    }
}

/// The `[Service]` section of a unit file.
pub fn parse_service_section(section: &ParsedSection) -> (res: crate::units::ServiceConfig)
    requires
        service_section_ok(section@),
    ensures
        res.exec_cmd@ == single_or_empty(section@, "EXECSTART"@),
        res.stop@ == single_or_empty(section@, "EXECSTOP"@),
        res.keep_alive == spec_flag(section@, "KEEP_ALIVE"@),
        res.accept == spec_flag(section@, "ACCEPT"@),
        res.srcv_type == spec_service_type(section@),
        res.notifyaccess == spec_notify_access(section@),
        key_index(section@, "NOTIFYACCESS"@) is Some && single_value(section@, "NOTIFYACCESS"@) == "exec"@
            ==> res.notifyaccess is Exec,
        key_index(section@, "NOTIFYACCESS"@) is Some && single_value(section@, "NOTIFYACCESS"@) == "all"@
            ==> res.notifyaccess is All,
        key_index(section@, "NOTIFYACCESS"@) is Some && single_value(section@, "NOTIFYACCESS"@) == "none"@
            ==> res.notifyaccess is NoAccess,
        key_index(section@, "NOTIFYACCESS"@) is Some && single_value(section@, "NOTIFYACCESS"@) == "main"@
            ==> res.notifyaccess is Main,
        strings_view(res.sockets@) == values_for(section@, "SOCKETS"@),
{
    proof {
        law_notify_access_names_its_kind(section@);
    }
    let exec_cmd = single_string(section, "EXECSTART");
    let stop = single_string(section, "EXECSTOP");
    let keep_alive = flag(section, "KEEP_ALIVE");
    let accept = flag(section, "ACCEPT");
    let srcv_type = match get_entries(section, "TYPE") {
        Some(v) => if eq_lit(&v[0].value, "notify") {
            crate::units::ServiceType::Notify
        } else {
            crate::units::ServiceType::Simple
        },
        None => crate::units::ServiceType::Simple,
    };
    let notifyaccess = match get_entries(section, "NOTIFYACCESS") {
        Some(v) => if eq_lit(&v[0].value, "all") {
            crate::units::NotifyKind::All
        } else if eq_lit(&v[0].value, "exec") {
            crate::units::NotifyKind::Exec
        } else if eq_lit(&v[0].value, "none") {
            crate::units::NotifyKind::NoAccess
        } else {
            crate::units::NotifyKind::Main
        },
        None => crate::units::NotifyKind::Main,
    };
    crate::units::ServiceConfig {
        srcv_type,
        notifyaccess,
        keep_alive,
        accept,
        exec_cmd,
        stop,
        sockets: values_of(section, "SOCKETS"),
    }
}

/// Every value of `sec` has a number below `n`.
pub open spec fn numbers_below(sec: SectionModel, n: nat) -> bool {
    forall|k: int, i: int| 0 <= k < sec.len() && 0 <= i < sec[k].1.len() ==> #[trigger] sec[k].1[i].0 < n
}

/// No two values of `sec` have the same number.
pub open spec fn numbers_distinct(sec: SectionModel) -> bool {
    forall|k1: int, i1: int, k2: int, i2: int|
        0 <= k1 < sec.len() && 0 <= i1 < sec[k1].1.len() && 0 <= k2 < sec.len() && 0 <= i2 < sec[k2].1.len()
            && #[trigger] sec[k1].1[i1].0 == #[trigger] sec[k2].1[i2].0 ==> k1 == k2 && i1 == i2
}

proof fn lemma_add_values_numbers(sec: SectionModel, key: Seq<char>, vals: Seq<Seq<char>>, n: nat)
    requires
        numbers_below(sec, n),
        numbers_distinct(sec),
        n + vals.len() <= u32::MAX,
    ensures
        numbers_below(add_values(sec, key, vals, n), n + vals.len()),
        numbers_distinct(add_values(sec, key, vals, n)),
{
    let nv = numbered(vals, n);
    assert forall|i: int| 0 <= i < nv.len() implies #[trigger] nv[i].0 == n + i by {
    }
    let r = add_values(sec, key, vals, n);
    match key_index(sec, key) {
        Some(k) => {
            let c = choose|c: int| 0 <= c < sec.len() && #[trigger] sec[c].0 == key;
            assert(0 <= k < sec.len());
            let old_len = sec[k].1.len();
            assert forall|a: int, i: int| 0 <= a < r.len() && 0 <= i < r[a].1.len() implies #[trigger] r[a].1[i].0 < n + vals.len() by {
                if a == k && i >= old_len {
                    assert(r[a].1[i] == nv[i - old_len]);
                } else {
                    assert(r[a].1[i] == sec[a].1[i]);
                }
            }
            assert forall|k1: int, i1: int, k2: int, i2: int|
                0 <= k1 < r.len() && 0 <= i1 < r[k1].1.len() && 0 <= k2 < r.len() && 0 <= i2 < r[k2].1.len()
                    && #[trigger] r[k1].1[i1].0 == #[trigger] r[k2].1[i2].0 implies k1 == k2 && i1 == i2 by {
                let new1 = k1 == k && i1 >= old_len;
                let new2 = k2 == k && i2 >= old_len;
                if new1 {
                    assert(r[k1].1[i1] == nv[i1 - old_len]);
                } else {
                    assert(r[k1].1[i1] == sec[k1].1[i1]);
                }
                if new2 {
                    assert(r[k2].1[i2] == nv[i2 - old_len]);
                } else {
                    assert(r[k2].1[i2] == sec[k2].1[i2]);
                }
            }
        },
        None => {
            let last = sec.len() as int;
            assert forall|a: int, i: int| 0 <= a < r.len() && 0 <= i < r[a].1.len() implies #[trigger] r[a].1[i].0 < n + vals.len() by {
                if a == last {
                    assert(r[a].1[i] == nv[i]);
                } else {
                    assert(r[a].1[i] == sec[a].1[i]);
                }
            }
            assert forall|k1: int, i1: int, k2: int, i2: int|
                0 <= k1 < r.len() && 0 <= i1 < r[k1].1.len() && 0 <= k2 < r.len() && 0 <= i2 < r[k2].1.len()
                    && #[trigger] r[k1].1[i1].0 == #[trigger] r[k2].1[i2].0 implies k1 == k2 && i1 == i2 by {
                if k1 == last {
                    assert(r[k1].1[i1] == nv[i1]);
                } else {
                    assert(r[k1].1[i1] == sec[k1].1[i1]);
                }
                if k2 == last {
                    assert(r[k2].1[i2] == nv[i2]);
                } else {
                    assert(r[k2].1[i2] == sec[k2].1[i2]);
                }
            }
        },
    }
}

// ---------------------------------------------------------------------------------------
// Socket sections

/// The kind of socket a `Listen...` key opens: 0 for a stream, 1 for datagrams, 2 for
/// sequential packets, 3 for a named pipe.
pub open spec fn listen_code(key: Seq<char>) -> Option<u8> {
    if key == "LISTENSTREAM"@ {
        Some(0u8)
    } else if key == "LISTENDATAGRAM"@ {
        Some(1u8)
    } else if key == "LISTENSEQUENTIALPACKET"@ {
        Some(2u8)
    } else if key == "LISTENFIFO"@ {
        Some(3u8)
    } else {
        None
    }
}

/// `x` (number, kind, address) is one of the listen lines of `sec`.
pub open spec fn is_listen_entry(sec: SectionModel, x: (u32, u8, Seq<char>)) -> bool {
    exists|k: int, i: int|
        0 <= k < sec.len() && 0 <= i < sec[k].1.len() && listen_code(sec[k].0) == Some(x.1)
            && #[trigger] sec[k].1[i] == (x.0, x.2)
}

/// `r` holds the listen lines of `sec`, each once, in the order of their numbers.
pub open spec fn listen_order(sec: SectionModel, r: Seq<(u32, u8, Seq<char>)>) -> bool {
    &&& forall|a: int, b: int| 0 <= a < b < r.len() ==> #[trigger] r[a].0 < #[trigger] r[b].0
    &&& forall|x: (u32, u8, Seq<char>)| #[trigger] r.contains(x) <==> is_listen_entry(sec, x)
}

/// A `[Socket]` section the parser accepts: only the keys `FileDescriptorName`,
/// `ListenStream`, `ListenDatagram`, `ListenSequentialPacket`, `ListenFIFO` and `Service`, each value
/// with a number of its own, and a value for `FileDescriptorName` where it is given.
pub open spec fn socket_section_ok(sec: SectionModel) -> bool {
    &&& keys_unique(sec)
    &&& numbers_distinct(sec)
    &&& forall|k: int| 0 <= k < sec.len() ==> ({
        let key = #[trigger] sec[k].0;
        key == "FILEDESCRIPTORNAME"@ || key == "SERVICE"@ || listen_code(key) is Some
    })
    &&& key_index(sec, "FILEDESCRIPTORNAME"@) is Some ==> entries_for(sec, "FILEDESCRIPTORNAME"@).len() > 0
}

/// A listen line of kind `code` at `addr` can be opened: a named pipe at any path; else
/// its address is a unix socket path, or, for streams and datagrams, an IPv4 or IPv6
/// socket address.
pub open spec fn accepted(code: u8, addr: Seq<char>) -> bool {
    code == 3 || spec_is_unix_addr(addr) || (code != 2 && (spec_socket_addr_v4(addr) is Some || spec_socket_addr_v6(
        addr,
    ) is Some))
}

/// `k` is the socket kind of a listen line of kind `code` at `addr`.
pub open spec fn kind_matches(k: SocketKind, code: u8, addr: Seq<char>) -> bool {
    match k {
        SocketKind::Stream(a) => code == 0 && a@ == addr,
        SocketKind::Datagram(a) => code == 1 && a@ == addr,
        SocketKind::Sequential(a) => code == 2 && a@ == addr,
        SocketKind::Fifo(a) => code == 3 && a@ == addr,
    }
}

/// `a` is the network address written `addr`: IPv4 where it reads as one, else IPv6.
pub open spec fn address_matches(a: SocketAddress, addr: Seq<char>) -> bool {
    match spec_socket_addr_v4(addr) {
        Some(x) => a.model() == Ok::<(Seq<u8>, u16), (Seq<u16>, u32, u16)>(x),
        None => spec_socket_addr_v6(addr) is Some && a.model() == Err::<(Seq<u8>, u16), (Seq<u16>, u32, u16)>(
            spec_socket_addr_v6(addr)->0,
        ),
    }
}

/// `s` is how a listen line of kind `code` at `addr` is opened: as a named pipe at `addr`
/// for `ListenFIFO`; else as a unix socket of that kind where `addr` is a path, else as a
/// TCP socket for a stream and a UDP socket for datagrams.
pub open spec fn specialized_matches(s: SpecializedSocketConfig, code: u8, addr: Seq<char>) -> bool {
    if code == 3 {
        match s {
            SpecializedSocketConfig::Fifo(f) => f.path@ == addr,
            _ => false,
        }
    } else if spec_is_unix_addr(addr) {
        match s {
            SpecializedSocketConfig::UnixSocket(u) => match u {
                UnixSocketConfig::Stream(a) => code == 0 && a@ == addr,
                UnixSocketConfig::Datagram(a) => code == 1 && a@ == addr,
                UnixSocketConfig::Sequential(a) => code == 2 && a@ == addr,
            },
            _ => false,
        }
    } else if code == 0 {
        match s {
            SpecializedSocketConfig::TcpSocket(t) => address_matches(t.addr, addr),
            _ => false,
        }
    } else if code == 1 {
        match s {
            SpecializedSocketConfig::UdpSocket(t) => address_matches(t.addr, addr),
            _ => false,
        }
    } else {
        false
    }
}

/// The configuration of one listen line of kind `code` at `addr`, if it can be opened.
fn make_socket_config(code: u8, addr: &String) -> (res: Option<SocketConfig>)
    requires
        code <= 3,
    ensures
        match res {
            Some(c) => accepted(code, addr@) && kind_matches(c.kind, code, addr@) && specialized_matches(
                c.specialized,
                code,
                addr@,
            ) && c.fd is None,
            None => !accepted(code, addr@),
        },
{
    if code == 3 {
        return Some(SocketConfig {
            kind: SocketKind::Fifo(addr.clone()),
            specialized: SpecializedSocketConfig::Fifo(crate::sockets::FifoConfig { path: addr.clone() }),
            fd: None,
        });
    }
    let kind = if code == 0 {
        SocketKind::Stream(addr.clone())
    } else if code == 1 {
        SocketKind::Datagram(addr.clone())
    } else {
        SocketKind::Sequential(addr.clone())
    };
    let specialized = match parse_unix_addr(addr) {
        Ok(a) => {
            let u = if code == 0 {
                UnixSocketConfig::Stream(a)
            } else if code == 1 {
                UnixSocketConfig::Datagram(a)
            } else {
                UnixSocketConfig::Sequential(a)
            };
            SpecializedSocketConfig::UnixSocket(u)
        },
        Err(_) => {
            if code == 2 {
                return None;
            }
            let chars = to_chars(addr.as_str());
            match parse_socket_address(&chars) {
                Some(a) => if code == 0 {
                    SpecializedSocketConfig::TcpSocket(TcpSocketConfig { addr: a })
                } else {
                    SpecializedSocketConfig::UdpSocket(UdpSocketConfig { addr: a })
                },
                None => return None,
            }
        },
    };
    Some(SocketConfig { kind, specialized, fd: None })
}

pub open spec fn triple_view(e: (u32, u8, String)) -> (u32, u8, Seq<char>) {
    (e.0, e.1, e.2@)
}

pub open spec fn triples_view(v: Seq<(u32, u8, String)>) -> Seq<(u32, u8, Seq<char>)> {
    v.map_values(|e: (u32, u8, String)| triple_view(e))
}

pub open spec fn strictly_increasing(r: Seq<(u32, u8, Seq<char>)>) -> bool {
    forall|a: int, b: int| 0 <= a < b < r.len() ==> #[trigger] r[a].0 < #[trigger] r[b].0
}

/// Puts `x` into `v` at the place that keeps the numbers increasing.
fn insert_by_number(v: &mut Vec<(u32, u8, String)>, x: (u32, u8, String))
    requires
        strictly_increasing(triples_view(old(v)@)),
        forall|i: int| 0 <= i < old(v)@.len() ==> #[trigger] old(v)@[i].0 != x.0,
    ensures
        strictly_increasing(triples_view(final(v)@)),
        forall|y: (u32, u8, Seq<char>)| #[trigger] triples_view(final(v)@).contains(y) <==> (triples_view(
            old(v)@,
        ).contains(y) || y == triple_view(x)),
{
    let ghost before = triples_view(v@);
    let mut p: usize = 0;
    while p < v.len() && v[p].0 < x.0
        invariant
            p <= v@.len(),
            before == triples_view(v@),
            forall|i: int| 0 <= i < p ==> #[trigger] v@[i].0 < x.0,
        decreases v.len() - p,
    {
        p = p + 1;
    }
    let ghost xv = triple_view(x);
    v.insert(p, x);
    proof {
        let after = triples_view(v@);
        assert(after =~= before.insert(p as int, xv));
        assert forall|a: int, b: int| 0 <= a < b < after.len() implies #[trigger] after[a].0 < #[trigger] after[b].0 by {
            if a < p && b < p {
                assert(before[a].0 < before[b].0);
            } else if a < p && b == p {
                assert(v@[a].0 < x.0);
            } else if a < p {
                assert(before[a].0 < before[b - 1].0);
            } else if a == p {
                assert(before[b - 1].0 != x.0);
                if p < before.len() {
                    assert(before[p as int].0 >= x.0);
                    if b - 1 > p {
                        assert(before[p as int].0 < before[b - 1].0);
                    }
                }
            } else {
                assert(before[a - 1].0 < before[b - 1].0);
            }
        }
        assert forall|y: (u32, u8, Seq<char>)| #[trigger] after.contains(y) <==> (before.contains(y) || y == xv) by {
            if after.contains(y) {
                let i = choose|i: int| 0 <= i < after.len() && after[i] == y;
                if i < p {
                    assert(before[i] == y);
                } else if i > p {
                    assert(before[i - 1] == y);
                }
            }
            if before.contains(y) {
                let i = choose|i: int| 0 <= i < before.len() && before[i] == y;
                if i < p {
                    assert(after[i] == y);
                } else {
                    assert(after[i + 1] == y);
                }
            }
            if y == xv {
                assert(after[p as int] == y);
            }
        }
    }
}

/// `x` is a listen line of `sec` that comes before value `i` of key `k`.
pub open spec fn listen_before(sec: SectionModel, k: int, i: int, x: (u32, u8, Seq<char>)) -> bool {
    exists|k2: int, i2: int|
        0 <= k2 < sec.len() && 0 <= i2 < sec[k2].1.len() && (k2 < k || (k2 == k && i2 < i))
            && listen_code(sec[k2].0) == Some(x.1) && #[trigger] sec[k2].1[i2] == (x.0, x.2)
}

/// The socket kind code of a `Listen...` key (see `listen_code`).
fn listen_code_of(key: &String) -> (res: Option<u8>)
    ensures
        res == listen_code(key@),
        res matches Some(c) ==> c <= 3,
{
    if eq_lit(key, "LISTENSTREAM") {
        Some(0)
    } else if eq_lit(key, "LISTENDATAGRAM") {
        Some(1)
    } else if eq_lit(key, "LISTENSEQUENTIALPACKET") {
        Some(2)
    } else if eq_lit(key, "LISTENFIFO") {
        Some(3)
    } else {
        None
    }
}

/// The listen lines of `section`, in the order of their numbers.
fn sorted_listen_entries(section: &ParsedSection) -> (res: Vec<(u32, u8, String)>)
    requires
        keys_unique(section@),
        numbers_distinct(section@),
    ensures
        listen_order(section@, triples_view(res@)),
        forall|j: int| 0 <= j < res@.len() ==> #[trigger] res@[j].1 <= 3,
{
    let ghost sec = section@;
    let mut res: Vec<(u32, u8, String)> = Vec::new();
    let mut k: usize = 0;
    while k < section.items.len()
        invariant
            k <= section.items@.len(),
            sec == section@,
            numbers_distinct(sec),
            strictly_increasing(triples_view(res@)),
            forall|j: int| 0 <= j < res@.len() ==> #[trigger] res@[j].1 <= 3,
            forall|x: (u32, u8, Seq<char>)| #[trigger] triples_view(res@).contains(x) <==> listen_before(sec, k as int, 0, x),
        decreases section.items.len() - k,
    {
        let item = &section.items[k];
        proof {
            assert(sec[k as int].0 == item.key@);
            assert(sec[k as int].1 == entries_view(item.entries@));
        }
        match listen_code_of(&item.key) {
            None => {
                proof {
                    assert forall|x: (u32, u8, Seq<char>)| listen_before(sec, k as int, 0, x) <==> listen_before(sec, k + 1, 0, x) by {
                        if listen_before(sec, k + 1, 0, x) {
                            let (k2, i2) = choose|k2: int, i2: int|
                                0 <= k2 < sec.len() && 0 <= i2 < sec[k2].1.len() && (k2 < k + 1 || (k2 == k + 1 && i2 < 0))
                                    && listen_code(sec[k2].0) == Some(x.1) && #[trigger] sec[k2].1[i2] == (x.0, x.2);
                            assert(k2 != k);
                            assert(listen_before(sec, k as int, 0, x));
                        }
                        if listen_before(sec, k as int, 0, x) {
                            let (k2, i2) = choose|k2: int, i2: int|
                                0 <= k2 < sec.len() && 0 <= i2 < sec[k2].1.len() && (k2 < k || (k2 == k && i2 < 0))
                                    && listen_code(sec[k2].0) == Some(x.1) && #[trigger] sec[k2].1[i2] == (x.0, x.2);
                            assert(listen_before(sec, k + 1, 0, x));
                        }
                    }
                }
            },
            Some(code) => {
                let mut i: usize = 0;
                while i < item.entries.len()
                    invariant
                        k < section.items@.len(),
                        item == &section.items@[k as int],
                        sec == section@,
                        numbers_distinct(sec),
                        listen_code(sec[k as int].0) == Some(code),
                        code <= 3,
                        sec[k as int].1 == entries_view(item.entries@),
                        i <= item.entries@.len(),
                        strictly_increasing(triples_view(res@)),
                        forall|j: int| 0 <= j < res@.len() ==> #[trigger] res@[j].1 <= 3,
                        forall|x: (u32, u8, Seq<char>)| #[trigger] triples_view(res@).contains(x) <==> listen_before(sec, k as int, i as int, x),
                    decreases item.entries.len() - i,
                {
                    let e = &item.entries[i];
                    let x = (e.number, code, e.value.clone());
                    proof {
                        assert(sec[k as int].1[i as int] == (e.number, e.value@));
                        assert forall|j: int| 0 <= j < res@.len() implies #[trigger] res@[j].0 != x.0 by {
                            let y = triples_view(res@)[j];
                            assert(triples_view(res@).contains(y));
                            let (k2, i2) = choose|k2: int, i2: int|
                                0 <= k2 < sec.len() && 0 <= i2 < sec[k2].1.len() && (k2 < k || (k2 == k && i2 < i))
                                    && listen_code(sec[k2].0) == Some(y.1) && #[trigger] sec[k2].1[i2] == (y.0, y.2);
                            if res@[j].0 == x.0 {
                                assert(sec[k2].1[i2].0 == sec[k as int].1[i as int].0);
                            }
                        }
                    }
                    let ghost old_view = triples_view(res@);
                    let ghost old_res = res@;
                    insert_by_number(&mut res, x);
                    proof {
                        assert forall|j: int| 0 <= j < res@.len() implies #[trigger] res@[j].1 <= 3 by {
                            let y = triples_view(res@)[j];
                            assert(triples_view(res@).contains(y));
                            if old_view.contains(y) {
                                let m = choose|m: int| 0 <= m < old_view.len() && old_view[m] == y;
                                assert(old_res[m].1 <= 3);
                            }
                        }
                        assert forall|x2: (u32, u8, Seq<char>)| #[trigger] triples_view(res@).contains(x2) <==> listen_before(sec, k as int, i + 1, x2) by {
                            if listen_before(sec, k as int, i + 1, x2) {
                                let (k2, i2) = choose|k2: int, i2: int|
                                    0 <= k2 < sec.len() && 0 <= i2 < sec[k2].1.len() && (k2 < k || (k2 == k && i2 < i + 1))
                                        && listen_code(sec[k2].0) == Some(x2.1) && #[trigger] sec[k2].1[i2] == (x2.0, x2.2);
                                if !(k2 == k && i2 == i) {
                                    assert(listen_before(sec, k as int, i as int, x2));
                                    assert(old_view.contains(x2));
                                }
                            }
                            if old_view.contains(x2) {
                                let (k2, i2) = choose|k2: int, i2: int|
                                    0 <= k2 < sec.len() && 0 <= i2 < sec[k2].1.len() && (k2 < k || (k2 == k && i2 < i))
                                        && listen_code(sec[k2].0) == Some(x2.1) && #[trigger] sec[k2].1[i2] == (x2.0, x2.2);
                                assert(listen_before(sec, k as int, i + 1, x2));
                            }
                            if x2 == triple_view(x) {
                                assert(sec[k as int].1[i as int] == (x2.0, x2.2));
                                assert(listen_before(sec, k as int, i + 1, x2));
                            }
                        }
                    }
                    i = i + 1;
                }
                proof {
                    assert forall|x: (u32, u8, Seq<char>)| listen_before(sec, k as int, i as int, x) <==> listen_before(sec, k + 1, 0, x) by {
                        if listen_before(sec, k + 1, 0, x) {
                            let (k2, i2) = choose|k2: int, i2: int|
                                0 <= k2 < sec.len() && 0 <= i2 < sec[k2].1.len() && (k2 < k + 1 || (k2 == k + 1 && i2 < 0))
                                    && listen_code(sec[k2].0) == Some(x.1) && #[trigger] sec[k2].1[i2] == (x.0, x.2);
                            assert(listen_before(sec, k as int, i as int, x));
                        }
                        if listen_before(sec, k as int, i as int, x) {
                            let (k2, i2) = choose|k2: int, i2: int|
                                0 <= k2 < sec.len() && 0 <= i2 < sec[k2].1.len() && (k2 < k || (k2 == k && i2 < i))
                                    && listen_code(sec[k2].0) == Some(x.1) && #[trigger] sec[k2].1[i2] == (x.0, x.2);
                            assert(listen_before(sec, k + 1, 0, x));
                        }
                    }
                }
            },
        }
        k = k + 1;
    }
    proof {
        assert forall|x: (u32, u8, Seq<char>)| listen_before(sec, k as int, 0, x) <==> is_listen_entry(sec, x) by {
            if is_listen_entry(sec, x) {
                let (k2, i2) = choose|k2: int, i2: int|
                    0 <= k2 < sec.len() && 0 <= i2 < sec[k2].1.len() && listen_code(sec[k2].0) == Some(x.1)
                        && #[trigger] sec[k2].1[i2] == (x.0, x.2);
                assert(listen_before(sec, k as int, 0, x));
            }
        }
    }
    res
}

/// The reason given when a listen line's address cannot be opened.
pub open spec fn unknown_address_message(addr: Seq<char>) -> Seq<char> {
    "No specialized config for socket found for socket addr: "@ + addr
}

/// The file descriptor name of a `[Socket]` section (`unknown` where none is given).
pub open spec fn spec_fd_name(sec: SectionModel) -> Seq<char> {
    if key_index(sec, "FILEDESCRIPTORNAME"@) is Some {
        entries_for(sec, "FILEDESCRIPTORNAME"@)[0].1
    } else {
        "unknown"@
    }
}

/// `name`, `services` and `configs` are what the `[Socket]` section `sec` gives when all
/// its listen lines can be opened: one configuration per listen line, in file order.
pub open spec fn socket_section_result(sec: SectionModel, name: String, services: Vec<String>, configs: Vec<SocketConfig>) -> bool {
    &&& name@ == spec_fd_name(sec)
    &&& strings_view(services@) == values_for(sec, "SERVICE"@)
    &&& exists|r: Seq<(u32, u8, Seq<char>)>| {
        &&& listen_order(sec, r)
        &&& r.len() == configs@.len()
        &&& forall|i: int| 0 <= i < r.len() ==> {
            &&& accepted(r[i].1, r[i].2)
            &&& kind_matches((#[trigger] configs@[i]).kind, r[i].1, r[i].2)
            &&& specialized_matches(configs@[i].specialized, r[i].1, r[i].2)
            &&& configs@[i].fd is None
        }
    }
}

/// `msg` is the error the `[Socket]` section `sec` gives: it names the address of the
/// first listen line, in file order, that cannot be opened.
pub open spec fn socket_section_error(sec: SectionModel, msg: Seq<char>) -> bool {
    exists|r: Seq<(u32, u8, Seq<char>)>, j: int| {
        &&& listen_order(sec, r)
        &&& 0 <= j < r.len()
        &&& !accepted(r[j].1, r[j].2)
        &&& forall|i: int| 0 <= i < j ==> #[trigger] accepted(r[i].1, r[i].2)
        &&& msg == unknown_address_message(r[j].2)
    }
}

/// The `[Socket]` section of a unit file: its file descriptor name, the services it
/// activates, and one socket configuration per listen line, in file order. Fails, naming
/// the address, at the first listen line whose address cannot be opened.
pub fn parse_socket_section(section: &ParsedSection) -> (res: Result<(String, Vec<String>, Vec<SocketConfig>), String>)
    requires
        socket_section_ok(section@),
    ensures
        match res {
            Ok((name, services, configs)) => socket_section_result(section@, name, services, configs),
            Err(msg) => socket_section_error(section@, msg@),
        },
{
    let name = match get_entries(section, "FILEDESCRIPTORNAME") {
        Some(v) => v[0].value.clone(),
        None => "unknown".to_owned(),
    };
    let services = values_of(section, "SERVICE");
    let listens = sorted_listen_entries(section);
    let ghost r = triples_view(listens@);
    let mut configs: Vec<SocketConfig> = Vec::new();
    let mut j: usize = 0;
    while j < listens.len()
        invariant
            j <= listens@.len(),
            r == triples_view(listens@),
            listen_order(section@, r),
            forall|m: int| 0 <= m < listens@.len() ==> #[trigger] listens@[m].1 <= 3,
            configs@.len() == j,
            forall|i: int| 0 <= i < j ==> {
                &&& accepted(r[i].1, r[i].2)
                &&& kind_matches((#[trigger] configs@[i]).kind, r[i].1, r[i].2)
                &&& specialized_matches(configs@[i].specialized, r[i].1, r[i].2)
                &&& configs@[i].fd is None
            },
        decreases listens.len() - j,
    {
        let code = listens[j].1;
        match make_socket_config(code, &listens[j].2) {
            Some(c) => {
                configs.push(c);
            },
            None => {
                let msg = crate::text::concat_strs(
                    "No specialized config for socket found for socket addr: ",
                    listens[j].2.as_str(),
                );
                proof {
                    assert forall|i: int| 0 <= i < j implies #[trigger] accepted(r[i].1, r[i].2) by {
                        let _c = configs@[i];
                    }
                    assert(r[j as int].2 == listens@[j as int].2@);
                    assert(!accepted(r[j as int].1, r[j as int].2));
                    assert(msg@ == unknown_address_message(r[j as int].2));
                }
                return Err(msg);
            },
        }
        j = j + 1;
    }
    Ok((name, services, configs))
}

// ---------------------------------------------------------------------------------------
// Whole unit files

/// `c` is the `[Unit]` section `sec` of the unit file at `path`.
pub open spec fn unit_config_matches(c: crate::units::UnitConfig, sec: SectionModel, path: Seq<char>) -> bool {
    &&& c.filepath@ == path
    &&& strings_view(c.wants@) == values_for(sec, "WANTS"@)
    &&& strings_view(c.requires@) == values_for(sec, "REQUIRES"@)
    &&& strings_view(c.after@) == values_for(sec, "AFTER"@)
    &&& strings_view(c.before@) == values_for(sec, "BEFORE"@)
}

/// `c` is the `[Install]` section `sec`.
pub open spec fn install_config_matches(c: crate::units::InstallConfig, sec: SectionModel) -> bool {
    &&& strings_view(c.wanted_by@) == values_for(sec, "WANTEDBY"@)
    &&& strings_view(c.required_by@) == values_for(sec, "REQUIREDBY"@)
}

/// `c` is the `[Service]` section `sec`.
pub open spec fn service_config_matches(c: crate::units::ServiceConfig, sec: SectionModel) -> bool {
    &&& c.exec_cmd@ == single_or_empty(sec, "EXECSTART"@)
    &&& c.stop@ == single_or_empty(sec, "EXECSTOP"@)
    &&& c.keep_alive == spec_flag(sec, "KEEP_ALIVE"@)
    &&& c.accept == spec_flag(sec, "ACCEPT"@)
    &&& c.srcv_type == spec_service_type(sec)
    &&& c.notifyaccess == spec_notify_access(sec)
    &&& strings_view(c.sockets@) == values_for(sec, "SOCKETS"@)
}

/// The section stored under the header `name` in `f`, if there is one.
pub open spec fn section_named(f: FileModel, name: Seq<char>) -> Option<SectionModel> {
    if exists|k: int| 0 <= k < f.len() && #[trigger] f[k].0 == name {
        Some(f[choose|k: int| 0 <= k < f.len() && #[trigger] f[k].0 == name].1)
    } else {
        None
    }
}

/// Every section of `f` has each key once, and each header appears once.
pub open spec fn file_wf(f: FileModel) -> bool {
    &&& headers_unique(f)
    &&& forall|k: int| 0 <= k < f.len() ==> keys_unique(#[trigger] f[k].1)
}

/// The headers of `f` are all among `[Service]`, `[Unit]` and `[Install]`, and its
/// `[Service]` section is one the parser accepts.
pub open spec fn service_file_ok(f: FileModel) -> bool {
    &&& file_wf(f)
    &&& forall|k: int| 0 <= k < f.len() ==> ({
        let h = #[trigger] f[k].0;
        h == "[Service]"@ || h == "[Unit]"@ || h == "[Install]"@
    })
    &&& section_named(f, "[Service]"@) matches Some(sec) ==> service_section_ok(sec)
}

/// `u` is the unit that the service file `f` at `path` describes, under the id `id`.
pub open spec fn service_unit_matches(u: crate::units::Unit, f: FileModel, path: Seq<char>, id: u64) -> bool {
    &&& u.id == id
    &&& match section_named(f, "[Unit]"@) {
        Some(sec) => unit_config_matches(u.conf, sec, path),
        None => unit_config_matches(u.conf, Seq::empty(), path),
    }
    &&& forall|r: crate::units::Relation| (#[trigger] crate::units::install_list(u.install, r)).len() == 0
    &&& match section_named(f, "[Install]"@) {
        Some(sec) => u.install.install_config matches Some(c) && install_config_matches(c, sec),
        None => u.install.install_config is None,
    }
    &&& match u.specialized {
        crate::units::UnitSpecialized::Service(srvc) => {
            &&& match section_named(f, "[Service]"@) {
                Some(sec) => srvc.service_config matches Some(c) && service_config_matches(c, sec),
                None => srvc.service_config is None,
            }
            &&& srvc.pid is None
            &&& srvc.process_group is None
            &&& srvc.status == crate::services::ServiceStatus::NeverRan
            &&& srvc.socket_names@.len() == 0
            &&& srvc.status_msgs@.len() == 0
            &&& srvc.runtime_info.restarted == 0
            &&& srvc.runtime_info.up_since is None
            &&& !srvc.signaled_ready
            &&& srvc.notifications_buffer@.len() == 0
            &&& srvc.stdout_dup is None
            &&& srvc.stderr_dup is None
        },
        _ => false,
    }
}

/// The unit that the service file `file` at `path` describes, under the id `chosen_id`.
/// A file without `[Unit]` section gets one without dependencies.
pub fn parse_service(file: &ParsedFile, path: &String, chosen_id: u64) -> (res: crate::units::Unit)
    requires
        service_file_ok(file@),
    ensures
        service_unit_matches(res, file@, path@, chosen_id),
{
    let ghost f = file@;
    let mut service_config: Option<crate::units::ServiceConfig> = None;
    let mut install_config: Option<crate::units::InstallConfig> = None;
    let mut unit_config: Option<crate::units::UnitConfig> = None;
    let mut k: usize = 0;
    let ghost mut service_at: int = 0;
    let ghost mut install_at: int = 0;
    let ghost mut unit_at: int = 0;
    while k < file.sections.len()
        invariant
            k <= file.sections@.len(),
            f == file@,
            service_file_ok(f),
            service_config is Some ==> 0 <= service_at < k && f[service_at].0 == "[Service]"@
                && service_config_matches(service_config->0, f[service_at].1),
            service_config is None ==> forall|m: int| 0 <= m < k ==> #[trigger] f[m].0 != "[Service]"@,
            install_config is Some ==> 0 <= install_at < k && f[install_at].0 == "[Install]"@
                && install_config_matches(install_config->0, f[install_at].1),
            install_config is None ==> forall|m: int| 0 <= m < k ==> #[trigger] f[m].0 != "[Install]"@,
            unit_config is Some ==> 0 <= unit_at < k && f[unit_at].0 == "[Unit]"@
                && unit_config_matches(unit_config->0, f[unit_at].1, path@),
            unit_config is None ==> forall|m: int| 0 <= m < k ==> #[trigger] f[m].0 != "[Unit]"@,
        decreases file.sections.len() - k,
    {
        let fs = &file.sections[k];
        proof {
            reveal_strlit("[Service]");
            reveal_strlit("[Unit]");
            reveal_strlit("[Install]");
            assert("[Service]"@[1] != "[Install]"@[1]);
            assert(f[k as int] == (fs.name@, fs.section@));
            assert(keys_unique(f[k as int].1));
        }
        if eq_lit(&fs.name, "[Service]") {
            proof {
                assert(f[k as int].0 == "[Service]"@);
                lemma_section_named(f, "[Service]"@);
                assert(section_named(f, "[Service]"@) == Some(f[k as int].1));
            }
            service_config = Some(parse_service_section(&fs.section));
            proof {
                service_at = k as int;
            }
        } else if eq_lit(&fs.name, "[Unit]") {
            let c = parse_unit_section(&fs.section, path);
            proof {
                assert(f[k as int].0 == "[Unit]"@);
                assert(unit_config_matches(c, f[k as int].1, path@));
            }
            unit_config = Some(c);
            proof {
                unit_at = k as int;
            }
        } else {
            let c = parse_install_section(&fs.section);
            proof {
                let h = f[k as int].0;
                assert(h == "[Service]"@ || h == "[Unit]"@ || h == "[Install]"@);
                assert(f[k as int].0 == "[Install]"@);
                assert(install_config_matches(c, f[k as int].1));
            }
            install_config = Some(c);
            proof {
                install_at = k as int;
            }
        }
        k = k + 1;
    }
    proof {
        assert(k == f.len());
    }
    let conf = match unit_config {
        Some(c) => c,
        None => crate::units::UnitConfig {
            filepath: path.clone(),
            wants: Vec::new(),
            requires: Vec::new(),
            before: Vec::new(),
            after: Vec::new(),
        },
    };
    let res = crate::units::Unit {
        id: chosen_id,
        conf,
        install: crate::units::Install {
            wants: Vec::new(),
            wanted_by: Vec::new(),
            requires: Vec::new(),
            required_by: Vec::new(),
            before: Vec::new(),
            after: Vec::new(),
            install_config,
        },
        specialized: crate::units::UnitSpecialized::Service(
            crate::services::Service {
                pid: None,
                process_group: None,
                status: crate::services::ServiceStatus::NeverRan,
                service_config,
                socket_names: Vec::new(),
                status_msgs: Vec::new(),
                runtime_info: crate::services::ServiceRuntimeInfo { restarted: 0, up_since: None },
                signaled_ready: false,
                notifications_buffer: String::new(),
                stdout_dup: None,
                stderr_dup: None,
            },
        ),
    };
    proof {
        lemma_section_named(f, "[Service]"@);
        lemma_section_named(f, "[Unit]"@);
        lemma_section_named(f, "[Install]"@);
        assert(values_for(Seq::empty(), "WANTS"@) =~= Seq::<Seq<char>>::empty());
        assert(values_for(Seq::empty(), "REQUIRES"@) =~= Seq::<Seq<char>>::empty());
        assert(values_for(Seq::empty(), "AFTER"@) =~= Seq::<Seq<char>>::empty());
        assert(values_for(Seq::empty(), "BEFORE"@) =~= Seq::<Seq<char>>::empty());
        assert(strings_view(Seq::<String>::empty()) =~= Seq::<Seq<char>>::empty());
        assert forall|r: crate::units::Relation| (#[trigger] crate::units::install_list(res.install, r)).len() == 0 by {
            match r {
                crate::units::Relation::Wants => {},
                crate::units::Relation::Requires => {},
                crate::units::Relation::Before => {},
                crate::units::Relation::After => {},
                crate::units::Relation::WantedBy => {},
                crate::units::Relation::RequiredBy => {},
            }
        }
    }
    res
}

/// A target file the parser accepts: well formed, with only `[Unit]` and `[Install]`
/// sections.
pub open spec fn target_file_ok(f: FileModel) -> bool {
    &&& file_wf(f)
    &&& forall|k: int| 0 <= k < f.len() ==> ({
        let h = #[trigger] f[k].0;
        h == "[Unit]"@ || h == "[Install]"@
    })
}

/// `u` is the target unit that the target file `f` at `path` describes, under the id `id`.
pub open spec fn target_unit_matches(u: crate::units::Unit, f: FileModel, path: Seq<char>, id: u64) -> bool {
    &&& u.id == id
    &&& match section_named(f, "[Unit]"@) {
        Some(sec) => unit_config_matches(u.conf, sec, path),
        None => unit_config_matches(u.conf, Seq::empty(), path),
    }
    &&& forall|r: crate::units::Relation| (#[trigger] crate::units::install_list(u.install, r)).len() == 0
    &&& match section_named(f, "[Install]"@) {
        Some(sec) => u.install.install_config matches Some(c) && install_config_matches(c, sec),
        None => u.install.install_config is None,
    }
    &&& u.specialized is Target
}

/// The target unit that the target file `file` at `path` describes, under the id
/// `chosen_id`: its `[Unit]` and `[Install]` sections, read as for a service.
pub fn parse_target(file: &ParsedFile, path: &String, chosen_id: u64) -> (res: crate::units::Unit)
    requires
        target_file_ok(file@),
    ensures
        target_unit_matches(res, file@, path@, chosen_id),
{
    proof {
        let f = file@;
        reveal_strlit("[Service]");
        reveal_strlit("[Unit]");
        reveal_strlit("[Install]");
        assert("[Service]"@[1] != "[Install]"@[1]);
        assert("[Service]"@[1] != "[Unit]"@[1]);
        assert forall|m: int| 0 <= m < f.len() implies #[trigger] f[m].0 != "[Service]"@ by {}
        lemma_section_named(f, "[Service]"@);
    }
    let u = parse_service(file, path, chosen_id);
    crate::units::Unit { id: u.id, conf: u.conf, install: u.install, specialized: crate::units::UnitSpecialized::Target }
}

proof fn lemma_section_named(f: FileModel, name: Seq<char>)
    requires
        headers_unique(f),
    ensures
        forall|m: int| 0 <= m < f.len() && #[trigger] f[m].0 == name ==> section_named(f, name) == Some(f[m].1),
        (forall|m: int| 0 <= m < f.len() ==> #[trigger] f[m].0 != name) ==> section_named(f, name) is None,
{
    assert forall|m: int| 0 <= m < f.len() && #[trigger] f[m].0 == name implies section_named(f, name) == Some(f[m].1) by {
        let c = choose|c: int| 0 <= c < f.len() && #[trigger] f[c].0 == name;
        assert(c == m);
    }
}

/// The headers of `f` are all among `[Socket]`, `[Unit]` and `[Install]`, and its
/// `[Socket]` section is one the parser accepts.
pub open spec fn socket_file_ok(f: FileModel) -> bool {
    &&& file_wf(f)
    &&& forall|k: int| 0 <= k < f.len() ==> ({
        let h = #[trigger] f[k].0;
        h == "[Socket]"@ || h == "[Unit]"@ || h == "[Install]"@
    })
    &&& section_named(f, "[Socket]"@) matches Some(sec) ==> socket_section_ok(sec)
}

/// What the `Debug` format of `std::path::Path` writes for the path `path`: the path
/// between double quotes, with special characters escaped.
pub uninterp spec fn path_debug_text(path: Seq<char>) -> Seq<char>;

/// The path `path` as error messages show it: written with the `Debug` format of
/// `std::path::Path`. The contract only names the text; the escaping is std's.
#[verifier::external_body]
pub(crate) fn path_debug(path: &String) -> (res: String)
    ensures
        res@ == path_debug_text(path@),
{
    format!("{:?}", std::path::Path::new(path.as_str()))
}

/// `u` is the socket unit that the socket file `f` at `path` describes, under the id `id`.
pub open spec fn socket_unit_matches(u: crate::units::Unit, f: FileModel, path: Seq<char>, id: u64) -> bool {
    &&& u.id == id
    &&& section_named(f, "[Unit]"@) matches Some(usec) && unit_config_matches(u.conf, usec, path)
    &&& forall|r: crate::units::Relation| (#[trigger] crate::units::install_list(u.install, r)).len() == 0
    &&& match section_named(f, "[Install]"@) {
        Some(sec) => u.install.install_config matches Some(c) && install_config_matches(c, sec),
        None => u.install.install_config is None,
    }
    &&& match u.specialized {
        crate::units::UnitSpecialized::Socket(sock) => {
            &&& section_named(f, "[Socket]"@) matches Some(ssec) && socket_section_result(
                ssec,
                sock.name,
                sock.services,
                sock.sockets,
            )
            &&& !sock.activated
        },
        _ => false,
    }
}

/// The error that the socket file `f` at `path` gives, if any: the first listen line whose
/// address cannot be opened, else a missing `[Socket]` section, else a missing `[Unit]`
/// section.
pub open spec fn socket_file_error(f: FileModel, path: Seq<char>, msg: Seq<char>) -> bool {
    match section_named(f, "[Socket]"@) {
        Some(ssec) => if exists|m: Seq<char>| socket_section_error(ssec, m) {
            exists|m: Seq<char>| socket_section_error(ssec, m) && msg == "Error in file: "@ + path_debug_text(path) + " :: "@ + m
        } else {
            section_named(f, "[Unit]"@) is None && msg == "Didn't find a unit config for file: "@ + path_debug_text(path)
        },
        None => msg == "Didnt find socket config in file: "@ + path_debug_text(path),
    }
}

/// The socket unit that the socket file `file` at `path` describes, under the id
/// `chosen_id`, or the reason why there is none (see `socket_file_error`).
pub fn parse_socket(file: &ParsedFile, path: &String, chosen_id: u64) -> (res: Result<crate::units::Unit, String>)
    requires
        socket_file_ok(file@),
    ensures
        match res {
            Ok(u) => socket_unit_matches(u, file@, path@, chosen_id),
            Err(msg) => socket_file_error(file@, path@, msg@),
        },
{
    let ghost f = file@;
    let quoted_path = path_debug(path);
    let mut socket_configs: Option<(String, Vec<String>, Vec<SocketConfig>)> = None;
    let mut unit_config: Option<crate::units::UnitConfig> = None;
    let mut install_config: Option<crate::units::InstallConfig> = None;
    let mut k: usize = 0;
    let ghost mut socket_at: int = 0;
    let ghost mut unit_at: int = 0;
    let ghost mut install_at: int = 0;
    proof {
        assert(quoted_path@ == path_debug_text(path@));
    }
    while k < file.sections.len()
        invariant
            k <= file.sections@.len(),
            f == file@,
            socket_file_ok(f),
            quoted_path@ == path_debug_text(path@),
            socket_configs matches Some(t) ==> 0 <= socket_at < k && f[socket_at].0 == "[Socket]"@
                && socket_section_result(f[socket_at].1, t.0, t.1, t.2),
            socket_configs is None ==> forall|m: int| 0 <= m < k ==> #[trigger] f[m].0 != "[Socket]"@,
            unit_config is Some ==> 0 <= unit_at < k && f[unit_at].0 == "[Unit]"@
                && unit_config_matches(unit_config->0, f[unit_at].1, path@),
            unit_config is None ==> forall|m: int| 0 <= m < k ==> #[trigger] f[m].0 != "[Unit]"@,
            install_config is Some ==> 0 <= install_at < k && f[install_at].0 == "[Install]"@
                && install_config_matches(install_config->0, f[install_at].1),
            install_config is None ==> forall|m: int| 0 <= m < k ==> #[trigger] f[m].0 != "[Install]"@,
        decreases file.sections.len() - k,
    {
        let fs = &file.sections[k];
        proof {
            reveal_strlit("[Socket]");
            reveal_strlit("[Unit]");
            reveal_strlit("[Install]");
            assert("[Socket]"@[1] != "[Unit]"@[1]);
            assert(f[k as int] == (fs.name@, fs.section@));
            assert(keys_unique(f[k as int].1));
        }
        if eq_lit(&fs.name, "[Socket]") {
            proof {
                assert(f[k as int].0 == "[Socket]"@);
                lemma_section_named(f, "[Socket]"@);
                assert(section_named(f, "[Socket]"@) == Some(f[k as int].1));
            }
            match parse_socket_section(&fs.section) {
                Ok(triple) => {
                    socket_configs = Some(triple);
                    proof {
                        socket_at = k as int;
                    }
                },
                Err(e) => {
                    let m1 = crate::text::concat_strs("Error in file: ", quoted_path.as_str());
                    let m2 = crate::text::concat_strs(m1.as_str(), " :: ");
                    let msg = crate::text::concat_strs(m2.as_str(), e.as_str());
                    proof {
                        assert(socket_section_error(f[k as int].1, e@));
                        assert(msg@ == "Error in file: "@ + path_debug_text(path@) + " :: "@ + e@);
                    }
                    return Err(msg);
                },
            }
        } else if eq_lit(&fs.name, "[Unit]") {
            let c = parse_unit_section(&fs.section, path);
            unit_config = Some(c);
            proof {
                unit_at = k as int;
            }
        } else {
            let c = parse_install_section(&fs.section);
            proof {
                let h = f[k as int].0;
                assert(h == "[Socket]"@ || h == "[Unit]"@ || h == "[Install]"@);
                assert("[Install]"@[1] != "[Unit]"@[1]);
                assert(f[k as int].0 == "[Install]"@);
                assert(install_config_matches(c, f[k as int].1));
            }
            install_config = Some(c);
            proof {
                install_at = k as int;
            }
        }
        k = k + 1;
    }
    proof {
        lemma_section_named(f, "[Socket]"@);
        lemma_section_named(f, "[Unit]"@);
        lemma_section_named(f, "[Install]"@);
    }
    let (sock_name, services, sock_configs) = match socket_configs {
        Some(triple) => triple,
        None => {
            let m1 = crate::text::concat_strs("Didnt find socket config in file: ", quoted_path.as_str());
            return Err(m1);
        },
    };
    proof {
        assert(section_named(f, "[Socket]"@) == Some(f[socket_at].1));
        lemma_socket_result_excludes_error(f[socket_at].1, sock_name, services, sock_configs);
    }
    let conf = match unit_config {
        Some(c) => c,
        None => {
            let m1 = crate::text::concat_strs("Didn't find a unit config for file: ", quoted_path.as_str());
            return Err(m1);
        },
    };
    let res = crate::units::Unit {
        id: chosen_id,
        conf,
        install: crate::units::Install {
            wants: Vec::new(),
            wanted_by: Vec::new(),
            requires: Vec::new(),
            required_by: Vec::new(),
            before: Vec::new(),
            after: Vec::new(),
            install_config,
        },
        specialized: crate::units::UnitSpecialized::Socket(
            crate::sockets::Socket { name: sock_name, sockets: sock_configs, services, activated: false },
        ),
    };
    proof {
        assert forall|r: crate::units::Relation| (#[trigger] crate::units::install_list(res.install, r)).len() == 0 by {
            match r {
                crate::units::Relation::Wants => {},
                crate::units::Relation::Requires => {},
                crate::units::Relation::Before => {},
                crate::units::Relation::After => {},
                crate::units::Relation::WantedBy => {},
                crate::units::Relation::RequiredBy => {},
            }
        }
    }
    Ok(res)
}

/// Two sequences that both hold the listen lines of a section in the order of their
/// numbers are the same.
pub proof fn lemma_listen_order_unique(sec: SectionModel, r1: Seq<(u32, u8, Seq<char>)>, r2: Seq<(u32, u8, Seq<char>)>)
    requires
        listen_order(sec, r1),
        listen_order(sec, r2),
    ensures
        r1 == r2,
{
    assert forall|x: (u32, u8, Seq<char>)| #[trigger] r1.contains(x) <==> r2.contains(x) by {
        assert(r1.contains(x) <==> is_listen_entry(sec, x));
        assert(r2.contains(x) <==> is_listen_entry(sec, x));
    }
    lemma_sorted_same_elements(r1, r2);
}

proof fn lemma_sorted_same_elements(r1: Seq<(u32, u8, Seq<char>)>, r2: Seq<(u32, u8, Seq<char>)>)
    requires
        strictly_increasing(r1),
        strictly_increasing(r2),
        forall|x: (u32, u8, Seq<char>)| #[trigger] r1.contains(x) <==> r2.contains(x),
    ensures
        r1 == r2,
    decreases r1.len() + r2.len(),
{
    if r1.len() == 0 || r2.len() == 0 {
        if r1.len() > 0 {
            assert(r1.contains(r1[0]));
        }
        if r2.len() > 0 {
            assert(r2.contains(r2[0]));
            assert(r1.contains(r2[0]));
        }
        assert(r1 =~= r2);
    } else {
        assert(r1.contains(r1[0]));
        assert(r2.contains(r1[0]));
        assert(r2.contains(r2[0]));
        assert(r1.contains(r2[0]));
        let i2 = choose|i: int| 0 <= i < r2.len() && r2[i] == r1[0];
        let i1 = choose|i: int| 0 <= i < r1.len() && r1[i] == r2[0];
        if i2 > 0 {
            assert(r2[0].0 < r2[i2].0);
            if i1 > 0 {
                assert(r1[0].0 < r1[i1].0);
            }
        }
        if i1 > 0 {
            assert(r1[0].0 < r1[i1].0);
        }
        assert(r1[0] == r2[0]);
        let t1 = r1.drop_first();
        let t2 = r2.drop_first();
        assert forall|x: (u32, u8, Seq<char>)| #[trigger] t1.contains(x) <==> t2.contains(x) by {
            if t1.contains(x) {
                let a = choose|a: int| 0 <= a < t1.len() && t1[a] == x;
                assert(r1[a + 1] == x);
                assert(r1.contains(x));
                assert(r2.contains(x));
                assert(r1[0].0 < r1[a + 1].0);
                let b = choose|b: int| 0 <= b < r2.len() && r2[b] == x;
                assert(b != 0);
                assert(t2[b - 1] == x);
            }
            if t2.contains(x) {
                let a = choose|a: int| 0 <= a < t2.len() && t2[a] == x;
                assert(r2[a + 1] == x);
                assert(r2.contains(x));
                assert(r1.contains(x));
                assert(r2[0].0 < r2[a + 1].0);
                let b = choose|b: int| 0 <= b < r1.len() && r1[b] == x;
                assert(b != 0);
                assert(t1[b - 1] == x);
            }
        }
        lemma_sorted_same_elements(t1, t2);
        assert(r1 =~= seq![r1[0]] + t1);
        assert(r2 =~= seq![r2[0]] + t2);
    }
}

proof fn lemma_socket_result_excludes_error(sec: SectionModel, name: String, services: Vec<String>, configs: Vec<SocketConfig>)
    requires
        socket_section_result(sec, name, services, configs),
    ensures
        !(exists|m: Seq<char>| socket_section_error(sec, m)),
{
    let r = choose|r: Seq<(u32, u8, Seq<char>)>| {
        &&& listen_order(sec, r)
        &&& r.len() == configs@.len()
        &&& forall|i: int| 0 <= i < r.len() ==> {
            &&& accepted(r[i].1, r[i].2)
            &&& kind_matches((#[trigger] configs@[i]).kind, r[i].1, r[i].2)
            &&& specialized_matches(configs@[i].specialized, r[i].1, r[i].2)
            &&& configs@[i].fd is None
        }
    };
    if exists|m: Seq<char>| socket_section_error(sec, m) {
        let m = choose|m: Seq<char>| socket_section_error(sec, m);
        let (r2, j) = choose|r2: Seq<(u32, u8, Seq<char>)>, j: int| {
            &&& listen_order(sec, r2)
            &&& 0 <= j < r2.len()
            &&& !accepted(r2[j].1, r2[j].2)
            &&& forall|i: int| 0 <= i < j ==> #[trigger] accepted(r2[i].1, r2[i].2)
            &&& m == unknown_address_message(r2[j].2)
        };
        lemma_listen_order_unique(sec, r, r2);
        let _c = configs@[j];
        assert(accepted(r[j].1, r[j].2));
    }
}

/// Whether `key` is absent from `section` or has exactly one value.
fn has_at_most_one(section: &ParsedSection, key: &str) -> (res: bool)
    requires
        keys_unique(section@),
    ensures
        res == at_most_one(section@, key@),
{
    match get_entries(section, key) {
        Some(v) => v.len() == 1,
        None => true,
    }
}

/// Whether `key` is absent from `section`, or has exactly one value, which is not empty.
fn single_nonempty(section: &ParsedSection, key: &str) -> (res: bool)
    requires
        keys_unique(section@),
    ensures
        res == (at_most_one(section@, key@) && (key_index(section@, key@) is Some ==> single_value(section@, key@).len() > 0)),
{
    match get_entries(section, key) {
        Some(v) => v.len() == 1 && v[0].value.unicode_len() > 0,
        None => true,
    }
}

/// Whether the `Type` of `section` is absent, or given once as `simple` or `notify`.
fn service_type_accepted(section: &ParsedSection) -> (res: bool)
    requires
        keys_unique(section@),
    ensures
        res == (at_most_one(section@, "TYPE"@) && (key_index(section@, "TYPE"@) is Some ==> (single_value(section@, "TYPE"@)
            == "simple"@ || single_value(section@, "TYPE"@) == "notify"@))),
{
    match get_entries(section, "TYPE") {
        Some(v) => v.len() == 1 && (eq_lit(&v[0].value, "simple") || eq_lit(&v[0].value, "notify")),
        None => true,
    }
}

/// Whether the `NotifyAccess` of `section` is absent, or given once as one of `all`,
/// `main`, `exec` and `none`.
fn notify_access_accepted(section: &ParsedSection) -> (res: bool)
    requires
        keys_unique(section@),
    ensures
        res == (at_most_one(section@, "NOTIFYACCESS"@) && (key_index(section@, "NOTIFYACCESS"@) is Some ==> {
            let v = single_value(section@, "NOTIFYACCESS"@);
            v == "all"@ || v == "main"@ || v == "exec"@ || v == "none"@
        })),
{
    match get_entries(section, "NOTIFYACCESS") {
        Some(v) => v.len() == 1 && (eq_lit(&v[0].value, "all") || eq_lit(&v[0].value, "main") || eq_lit(&v[0].value, "exec")
            || eq_lit(&v[0].value, "none")),
        None => true,
    }
}

/// Whether the parser accepts `section` as a `[Service]` section (see `service_section_ok`).
pub fn service_section_accepted(section: &ParsedSection) -> (res: bool)
    requires
        keys_unique(section@),
    ensures
        res == service_section_ok(section@),
{
    has_at_most_one(section, "EXECSTART") && has_at_most_one(section, "EXECSTOP") && single_nonempty(section, "KEEP_ALIVE")
        && single_nonempty(section, "ACCEPT") && service_type_accepted(section) && notify_access_accepted(section)
}

/// Whether the keys of `section` are all among those of a `[Socket]` section.
fn socket_keys_known(section: &ParsedSection) -> (res: bool)
    ensures
        res == forall|k: int| 0 <= k < section@.len() ==> ({
            let key = #[trigger] section@[k].0;
            key == "FILEDESCRIPTORNAME"@ || key == "SERVICE"@ || listen_code(key) is Some
        }),
{
    let mut k: usize = 0;
    while k < section.items.len()
        invariant
            k <= section@.len(),
            section@ == items_view(section.items@),
            forall|m: int| 0 <= m < k ==> ({
                let key = #[trigger] section@[m].0;
                key == "FILEDESCRIPTORNAME"@ || key == "SERVICE"@ || listen_code(key) is Some
            }),
        decreases section.items.len() - k,
    {
        let key = &section.items[k].key;
        let known = eq_lit(key, "FILEDESCRIPTORNAME") || eq_lit(key, "SERVICE") || listen_code_of(key).is_some();
        proof {
            assert(section@[k as int].0 == key@);
        }
        if !known {
            return false;
        }
        k = k + 1;
    }
    true
}

/// Whether the parser accepts `section` as a `[Socket]` section (see `socket_section_ok`),
/// for a section whose keys and value numbers are distinct, as `parse_file` gives them.
pub fn socket_section_accepted(section: &ParsedSection) -> (res: bool)
    requires
        section_wf(section@),
    ensures
        res == socket_section_ok(section@),
{
    let names_ok = match get_entries(section, "FILEDESCRIPTORNAME") {
        Some(v) => v.len() > 0,
        None => true,
    };
    names_ok && socket_keys_known(section)
}

proof fn lemma_section_named_at(f: FileModel, name: Seq<char>, k: int)
    requires
        headers_unique(f),
        0 <= k < f.len(),
        f[k].0 == name,
    ensures
        section_named(f, name) == Some(f[k].1),
{
    let c = choose|c: int| 0 <= c < f.len() && #[trigger] f[c].0 == name;
    assert(f[c].0 == f[k].0);
}

/// Whether the parser accepts `file` as a service file (see `service_file_ok`): its
/// headers are among `[Service]`, `[Unit]` and `[Install]`, and its `[Service]` section is
/// accepted. The parser refuses any other file.
pub fn service_file_accepted(file: &ParsedFile) -> (res: bool)
    requires
        file_wf(file@),
    ensures
        res == service_file_ok(file@),
{
    let ghost f = file@;
    let mut k: usize = 0;
    while k < file.sections.len()
        invariant
            k <= f.len(),
            f == file@,
            file_wf(f),
            forall|m: int| 0 <= m < k ==> ({
                let h = #[trigger] f[m].0;
                &&& (h == "[Service]"@ || h == "[Unit]"@ || h == "[Install]"@)
                &&& (h == "[Service]"@ ==> service_section_ok(f[m].1))
            }),
        decreases file.sections.len() - k,
    {
        let fs = &file.sections[k];
        proof {
            assert(f[k as int] == (fs.name@, fs.section@));
            assert(keys_unique(f[k as int].1));
        }
        if eq_lit(&fs.name, "[Service]") {
            if !service_section_accepted(&fs.section) {
                proof {
                    lemma_section_named_at(f, "[Service]"@, k as int);
                }
                return false;
            }
        } else if !(eq_lit(&fs.name, "[Unit]") || eq_lit(&fs.name, "[Install]")) {
            proof {
                assert(!({
                    let h = f[k as int].0;
                    h == "[Service]"@ || h == "[Unit]"@ || h == "[Install]"@
                }));
            }
            return false;
        }
        k = k + 1;
    }
    proof {
        if exists|c: int| 0 <= c < f.len() && #[trigger] f[c].0 == "[Service]"@ {
            let c = choose|c: int| 0 <= c < f.len() && #[trigger] f[c].0 == "[Service]"@;
            lemma_section_named_at(f, "[Service]"@, c);
        }
    }
    true
}

/// Whether the parser accepts `file` as a socket file (see `socket_file_ok`): its headers
/// are among `[Socket]`, `[Unit]` and `[Install]`, and its `[Socket]` section is accepted.
/// The parser refuses any other file.
pub fn socket_file_accepted(file: &ParsedFile) -> (res: bool)
    requires
        file_wf(file@),
        sections_wf(file@),
    ensures
        res == socket_file_ok(file@),
{
    let ghost f = file@;
    let mut k: usize = 0;
    while k < file.sections.len()
        invariant
            k <= f.len(),
            f == file@,
            file_wf(f),
            sections_wf(f),
            forall|m: int| 0 <= m < k ==> ({
                let h = #[trigger] f[m].0;
                &&& (h == "[Socket]"@ || h == "[Unit]"@ || h == "[Install]"@)
                &&& (h == "[Socket]"@ ==> socket_section_ok(f[m].1))
            }),
        decreases file.sections.len() - k,
    {
        let fs = &file.sections[k];
        proof {
            assert(f[k as int] == (fs.name@, fs.section@));
            assert(section_wf(f[k as int].1));
        }
        if eq_lit(&fs.name, "[Socket]") {
            if !socket_section_accepted(&fs.section) {
                proof {
                    lemma_section_named_at(f, "[Socket]"@, k as int);
                }
                return false;
            }
        } else if !(eq_lit(&fs.name, "[Unit]") || eq_lit(&fs.name, "[Install]")) {
            proof {
                assert(!({
                    let h = f[k as int].0;
                    h == "[Socket]"@ || h == "[Unit]"@ || h == "[Install]"@
                }));
            }
            return false;
        }
        k = k + 1;
    }
    proof {
        if exists|c: int| 0 <= c < f.len() && #[trigger] f[c].0 == "[Socket]"@ {
            let c = choose|c: int| 0 <= c < f.len() && #[trigger] f[c].0 == "[Socket]"@;
            lemma_section_named_at(f, "[Socket]"@, c);
        }
    }
    true
}

} // verus!
