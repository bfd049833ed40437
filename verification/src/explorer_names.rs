//! Names and listings in the file explorer: what kind of file a name is,
//! how sizes are shown, how paths are put together, which names are free,
//! and the order of a listing.

use crate::text::{
    ascii_lower, chars_of, dec, lowercase, part, push_dec, push_str, push_word, same, string_of,
    to_lowercase,
};
use vstd::prelude::*;

verus! {

/// One entry of a listing.
pub struct Item {
    pub name: Vec<char>,
    pub is_dir: bool,
    pub size: u32,
}

/// An entry of a listing, in contracts.
pub struct Listed {
    pub name: Seq<char>,
    pub is_dir: bool,
    pub size: u32,
}

impl View for Item {
    type V = Listed;

    open spec fn view(&self) -> Listed {
        Listed { name: self.name@, is_dir: self.is_dir, size: self.size }
    }
}

pub open spec fn item_views(v: Seq<Item>) -> Seq<Listed> {
    Seq::new(v.len(), |i: int| v[i]@)
}

#[derive(Clone, Copy, Debug, PartialEq, Eq, Structural)]
pub enum SortKey {
    Name,
    Size,
    Type,
}

// ---------------------------------------------------------------------
// Kinds of files
// ---------------------------------------------------------------------

/// Whether a text ends with another.
pub open spec fn ends(s: Seq<char>, t: Seq<char>) -> bool {
    s.len() >= t.len() && s.skip(s.len() - t.len()) == t
}

/// Whether a text starts with another.
pub open spec fn starts(s: Seq<char>, t: Seq<char>) -> bool {
    s.len() >= t.len() && s.take(t.len() as int) == t
}

/// The characters in lower case; in ASCII text the letters are lowered one
/// by one.
pub fn lowered(s: &Vec<char>) -> (r: Vec<char>)
    ensures
        r@ == lowercase(s@),
        (forall|i: int| 0 <= i < s@.len() ==> (#[trigger] s@[i] as u32) < 128) ==> r@
            == s@.map_values(|c: char| ascii_lower(c)),
{
    let text = string_of(s);
    let low = to_lowercase(text.as_str());
    chars_of(low.as_str())
}

/// Whether a text ends with another.
pub fn ends_with(s: &Vec<char>, t: &str) -> (r: bool)
    ensures
        r == ends(s@, t@),
{
    let t = chars_of(t);
    if s.len() < t.len() {
        return false;
    }
    let tail = part(s, s.len() - t.len(), s.len());
    assert(tail@ =~= s@.skip(s@.len() - t@.len()));
    same(&tail, &t)
}

/// Whether a text starts with another.
pub fn starts_with(s: &Vec<char>, t: &Vec<char>) -> (r: bool)
    ensures
        r == starts(s@, t@),
{
    if s.len() < t.len() {
        return false;
    }
    let head = part(s, 0, t.len());
    assert(head@ =~= s@.take(t@.len() as int));
    same(&head, t)
}

pub open spec fn elf_name(name: Seq<char>) -> bool {
    ends(lowercase(name), ".elf"@)
}

/// Whether a lower-case name is that of a text file.
pub open spec fn text_ending(low: Seq<char>) -> bool {
    ends(low, ".txt"@) || ends(low, ".md"@) || ends(low, ".log"@) || ends(low, ".cfg"@)
}

pub open spec fn text_name(name: Seq<char>) -> bool {
    text_ending(lowercase(name))
}

/// Whether a lower-case name is that of a raw 32-bit pixel dump or a PNG
/// file.
pub open spec fn image_ending(low: Seq<char>) -> bool {
    ends(low, ".raw"@) || ends(low, ".png"@)
}

pub open spec fn image_name(name: Seq<char>) -> bool {
    image_ending(lowercase(name))
}

/// Whether a lower-case name is that of a text file.
pub fn ends_like_text(low: &Vec<char>) -> (r: bool)
    ensures
        r == text_ending(low@),
{
    ends_with(low, ".txt") || ends_with(low, ".md") || ends_with(low, ".log") || ends_with(
        low,
        ".cfg",
    )
}

/// Whether a lower-case name is that of an image.
pub fn ends_like_image(low: &Vec<char>) -> (r: bool)
    ensures
        r == image_ending(low@),
{
    ends_with(low, ".raw") || ends_with(low, ".png")
}

pub open spec fn kind_of(name: Seq<char>) -> &'static str {
    if elf_name(name) {
        "ELF Program"
    } else if text_name(name) {
        "Text"
    } else if image_name(name) {
        "Image"
    } else {
        "File"
    }
}

pub fn is_elf(name: &Vec<char>) -> (r: bool)
    ensures
        r == elf_name(name@),
{
    let low = lowered(name);
    ends_with(&low, ".elf")
}

pub fn is_text(name: &Vec<char>) -> (r: bool)
    ensures
        r == text_name(name@),
{
    let low = lowered(name);
    ends_like_text(&low)
}

pub fn is_raw(name: &Vec<char>) -> (r: bool)
    ensures
        r == image_name(name@),
{
    let low = lowered(name);
    ends_like_image(&low)
}

/// The kind of file that a name's ending says.
pub fn file_type(name: &Vec<char>) -> (r: &'static str)
    ensures
        r == kind_of(name@),
{
    if is_elf(name) {
        "ELF Program"
    } else if is_text(name) {
        "Text"
    } else if is_raw(name) {
        "Image"
    } else {
        "File"
    }
}

// ---------------------------------------------------------------------
// Sizes
// ---------------------------------------------------------------------

/// A size with one decimal place, cut off: bytes, KiB or MiB.
pub open spec fn size_text(bytes: nat) -> Seq<char> {
    if bytes >= 1048576 {
        dec(bytes / 1048576) + "."@ + dec(bytes % 1048576 * 10 / 1048576) + " MiB"@
    } else if bytes >= 1024 {
        dec(bytes / 1024) + "."@ + dec(bytes % 1024 * 10 / 1024) + " KiB"@
    } else {
        dec(bytes) + " B"@
    }
}

/// Integer-only human-readable size ("12 B", "4.5 KiB", "8.0 MiB").
pub fn fmt_size(bytes: u64) -> (r: Vec<char>)
    ensures
        r@ == size_text(bytes as nat),
{
    let mut out: Vec<char> = Vec::new();
    if bytes >= 1048576 {
        push_dec(&mut out, bytes / 1048576);
        push_str(&mut out, ".");
        push_dec(&mut out, bytes % 1048576 * 10 / 1048576);
        push_str(&mut out, " MiB");
    } else if bytes >= 1024 {
        push_dec(&mut out, bytes / 1024);
        push_str(&mut out, ".");
        push_dec(&mut out, bytes % 1024 * 10 / 1024);
        push_str(&mut out, " KiB");
    } else {
        push_dec(&mut out, bytes);
        push_str(&mut out, " B");
    }
    assert(out@ =~= size_text(bytes as nat));
    out
}

// ---------------------------------------------------------------------
// Paths
// ---------------------------------------------------------------------

/// A child's path.
pub open spec fn joined_path(path: Seq<char>, child: Seq<char>) -> Seq<char> {
    if path == seq!['/'] {
        seq!['/'] + child
    } else {
        path + seq!['/'] + child
    }
}

/// Where the last `c` is; -1 where there is none.
pub open spec fn last_place(s: Seq<char>, c: char) -> int
    decreases s.len(),
{
    if s.len() == 0 {
        -1
    } else if s.last() == c {
        s.len() - 1
    } else {
        last_place(s.drop_last(), c)
    }
}

/// The directory that a path is in; the root is in itself.
pub open spec fn parent_of(path: Seq<char>) -> Seq<char> {
    let k = last_place(path, '/');
    if path == seq!['/'] || k <= 0 {
        seq!['/']
    } else {
        path.take(k)
    }
}

/// The last part of a path.
pub open spec fn base_of(path: Seq<char>) -> Seq<char> {
    path.skip(last_place(path, '/') + 1)
}

fn is_root(path: &Vec<char>) -> (r: bool)
    ensures
        r == (path@ == seq!['/']),
{
    let r = path.len() == 1 && path[0] == '/';
    proof {
        if r {
            assert(path@ =~= seq!['/']);
        }
    }
    r
}

/// Joins `child` onto `path` (handling the root directory).
pub fn join(path: &Vec<char>, child: &Vec<char>) -> (r: Vec<char>)
    ensures
        r@ == joined_path(path@, child@),
{
    let mut out: Vec<char> = Vec::new();
    if !is_root(path) {
        push_word(&mut out, true, path);
    }
    out.push('/');
    push_word(&mut out, true, child);
    assert(out@ =~= joined_path(path@, child@));
    out
}

/// Where the last `c` is, counted from 1; 0 where there is none.
fn last_index(s: &Vec<char>, c: char) -> (r: usize)
    ensures
        r == last_place(s@, c) + 1,
        r <= s@.len(),
{
    let mut n: usize = s.len();
    assert(s@.take(n as int) =~= s@);
    while n > 0
        invariant
            n <= s@.len(),
            last_place(s@, c) == last_place(s@.take(n as int), c),
        decreases n,
    {
        assert(s@.take(n as int).drop_last() =~= s@.take(n - 1));
        if s[n - 1] == c {
            return n;
        }
        n -= 1;
    }
    0
}

/// Parent of `path`; stays "/" at the root.
pub fn parent_path(path: &Vec<char>) -> (r: Vec<char>)
    ensures
        r@ == parent_of(path@),
{
    let k = last_index(path, '/');
    if is_root(path) || k <= 1 {
        let r = vec!['/'];
        assert(r@ =~= seq!['/']);
        return r;
    }
    let r = part(path, 0, k - 1);
    assert(r@ =~= path@.take(k - 1));
    r
}

/// The last part of a path.
pub fn base_name(path: &Vec<char>) -> (r: Vec<char>)
    ensures
        r@ == base_of(path@),
{
    let k = last_index(path, '/');
    let r = part(path, k, path.len());
    assert(r@ =~= path@.skip(k as int));
    r
}

proof fn lemma_last_place(a: Seq<char>, b: Seq<char>, c: char)
    requires
        !b.contains(c),
    ensures
        last_place(a + seq![c] + b, c) == a.len(),
    decreases b.len(),
{
    let s = a + seq![c] + b;
    if b.len() == 0 {
        assert(s.last() == c);
    } else {
        let t = b.drop_last();
        assert forall|i: int| 0 <= i < t.len() implies t[i] != c by {
            assert(t[i] == b[i]);
        }
        assert(b[b.len() - 1] != c);
        assert(s.drop_last() =~= a + seq![c] + t);
        lemma_last_place(a, t, c);
    }
}

/// Going into a child and up again leads back, and the child's name is the
/// last part of its path.
pub proof fn law_parent_of_child(path: Seq<char>, child: Seq<char>)
    requires
        path.len() > 0,
        !child.contains('/'),
        child.len() > 0,
    ensures
        parent_of(joined_path(path, child)) == path,
        base_of(joined_path(path, child)) == child,
{
    let p = joined_path(path, child);
    if path == seq!['/'] {
        let none = Seq::<char>::empty();
        lemma_last_place(none, child, '/');
        assert(none + seq!['/'] + child =~= p);
        assert(p.skip(1) =~= child);
    } else {
        lemma_last_place(path, child, '/');
        assert(p.take(path.len() as int) =~= path);
        assert(p.skip(path.len() as int + 1) =~= child);
    }
}

// ---------------------------------------------------------------------
// Free names
// ---------------------------------------------------------------------

/// Whether a name's lower-case form is taken.
pub open spec fn is_taken(taken: Seq<Seq<char>>, name: Seq<char>) -> bool {
    taken.contains(lowercase(name))
}

/// A name's stem and extension: the extension starts at the last dot, unless
/// that is the first character.
pub open spec fn stem_and_ext(name: Seq<char>) -> (Seq<char>, Seq<char>) {
    let k = last_place(name, '.');
    if k > 0 {
        (name.take(k), name.skip(k))
    } else {
        (name, Seq::empty())
    }
}

/// A name with a number.
pub open spec fn numbered(stem: Seq<char>, i: nat, ext: Seq<char>) -> Seq<char> {
    stem + " ("@ + dec(i) + ")"@ + ext
}

/// The first numbered name from `i` on that is free; the hundredth as it is.
pub open spec fn free_number(stem: Seq<char>, ext: Seq<char>, taken: Seq<Seq<char>>, i: nat) -> Seq<
    char,
>
    decreases 100 - i,
{
    if i >= 100 || !is_taken(taken, numbered(stem, i, ext)) {
        numbered(stem, i, ext)
    } else {
        free_number(stem, ext, taken, i + 1)
    }
}

/// A name that collides with nothing: the name itself, or one with a number
/// before the extension.
pub open spec fn free_name(name: Seq<char>, taken: Seq<Seq<char>>) -> Seq<char> {
    if !is_taken(taken, name) {
        name
    } else {
        let (stem, ext) = stem_and_ext(name);
        free_number(stem, ext, taken, 2)
    }
}

/// The name that a paste uses is free, unless all the numbered ones below
/// the hundredth are taken.
pub proof fn law_free_name_is_free(name: Seq<char>, taken: Seq<Seq<char>>)
    ensures
        ({
            let (stem, ext) = stem_and_ext(name);
            is_taken(taken, free_name(name, taken)) ==> free_name(name, taken) == numbered(
                stem,
                100,
                ext,
            ) && forall|i: nat| 2 <= i < 100 ==> is_taken(taken, #[trigger] numbered(stem, i, ext))
        }),
{
    if is_taken(taken, name) {
        let (stem, ext) = stem_and_ext(name);
        lemma_free_number(stem, ext, taken, 2);
    }
}

proof fn lemma_free_number(stem: Seq<char>, ext: Seq<char>, taken: Seq<Seq<char>>, i: nat)
    requires
        i <= 100,
    ensures
        is_taken(taken, free_number(stem, ext, taken, i)) ==> free_number(stem, ext, taken, i)
            == numbered(stem, 100, ext) && forall|k: nat|
            i <= k < 100 ==> is_taken(taken, #[trigger] numbered(stem, k, ext)),
    decreases 100 - i,
{
    if i < 100 && is_taken(taken, numbered(stem, i, ext)) {
        lemma_free_number(stem, ext, taken, i + 1);
    }
}

/// The name of a new entry: the plain one, else the first free number below
/// the hundredth, else the last tried; `name` is the candidate under test.
pub open spec fn new_name(
    stem: Seq<char>,
    ext: Seq<char>,
    taken: Seq<Seq<char>>,
    name: Seq<char>,
    i: nat,
) -> Seq<char>
    decreases 100 - i,
{
    if is_taken(taken, name) && i < 100 {
        new_name(stem, ext, taken, numbered(stem, i, ext), i + 1)
    } else {
        name
    }
}

/// The lower-case names of a listing.
pub open spec fn taken_names(items: Seq<Listed>) -> Seq<Seq<char>> {
    Seq::new(items.len(), |i: int| lowercase(items[i].name))
}

/// The lower-case names of a listing.
pub fn names_taken(items: &Vec<Item>) -> (r: Vec<Vec<char>>)
    ensures
        crate::text::views(r@) == taken_names(item_views(items@)),
{
    let mut out: Vec<Vec<char>> = Vec::new();
    let mut i: usize = 0;
    while i < items.len()
        invariant
            i <= items@.len(),
            out@.len() == i,
            forall|k: int| 0 <= k < i ==> #[trigger] out@[k]@ == lowercase(items@[k].name@),
        decreases items@.len() - i,
    {
        out.push(lowered(&items[i].name));
        i += 1;
    }
    assert(crate::text::views(out@) =~= taken_names(item_views(items@)));
    out
}

/// Whether a lower-case name is among those taken.
pub fn low_taken(taken: &Vec<Vec<char>>, low: &Vec<char>) -> (r: bool)
    ensures
        r == crate::text::views(taken@).contains(low@),
{
    let ghost all = crate::text::views(taken@);
    let mut i: usize = 0;
    while i < taken.len()
        invariant
            i <= taken@.len(),
            all == crate::text::views(taken@),
            forall|k: int| 0 <= k < i ==> all[k] != low@,
        decreases taken@.len() - i,
    {
        if same(&taken[i], low) {
            assert(all[i as int] == low@);
            return true;
        }
        i += 1;
    }
    false
}

fn name_taken(taken: &Vec<Vec<char>>, name: &Vec<char>) -> (r: bool)
    ensures
        r == is_taken(crate::text::views(taken@), name@),
{
    let low = lowered(name);
    low_taken(taken, &low)
}

fn with_number(stem: &Vec<char>, i: u64, ext: &Vec<char>) -> (r: Vec<char>)
    ensures
        r@ == numbered(stem@, i as nat, ext@),
{
    let mut out: Vec<char> = Vec::new();
    push_word(&mut out, true, stem);
    push_str(&mut out, " (");
    push_dec(&mut out, i);
    push_str(&mut out, ")");
    push_word(&mut out, true, ext);
    assert(out@ =~= numbered(stem@, i as nat, ext@));
    out
}

/// A name that collides with nothing in `taken` (lowercase names).
pub fn unique_name(name: &Vec<char>, taken: &Vec<Vec<char>>) -> (r: Vec<char>)
    ensures
        r@ == free_name(name@, crate::text::views(taken@)),
{
    if !name_taken(taken, name) {
        let r = part(name, 0, name.len());
        assert(r@ =~= name@);
        return r;
    }
    let k = last_index(name, '.');
    let cut = if k > 1 { k - 1 } else { name.len() };
    let stem = part(name, 0, cut);
    let ext = part(name, cut, name.len());
    proof {
        assert(stem@ =~= stem_and_ext(name@).0);
        assert(ext@ =~= stem_and_ext(name@).1);
    }
    let ghost all = crate::text::views(taken@);
    let mut i: u64 = 2;
    while i < 100
        invariant
            2 <= i <= 100,
            all == crate::text::views(taken@),
            is_taken(all, name@),
            (stem@, ext@) == stem_and_ext(name@),
            free_number(stem@, ext@, all, 2) == free_number(stem@, ext@, all, i as nat),
        decreases 100 - i,
    {
        let candidate = with_number(&stem, i, &ext);
        if !name_taken(taken, &candidate) {
            return candidate;
        }
        i += 1;
    }
    with_number(&stem, i, &ext)
}

/// The name of a new entry in a listing.
pub fn fresh_name(stem: &str, ext: &str, taken: &Vec<Vec<char>>) -> (r: Vec<char>)
    ensures
        r@ == new_name(stem@, ext@, crate::text::views(taken@), stem@ + ext@, 2),
{
    let stem = chars_of(stem);
    let ext = chars_of(ext);
    let mut name: Vec<char> = Vec::new();
    push_word(&mut name, true, &stem);
    push_word(&mut name, true, &ext);
    assert(name@ =~= stem@ + ext@);
    let ghost all = crate::text::views(taken@);
    let ghost first = name@;
    let mut i: u64 = 2;
    while i < 100 && name_taken(taken, &name)
        invariant
            2 <= i <= 100,
            all == crate::text::views(taken@),
            new_name(stem@, ext@, all, first, 2) == new_name(stem@, ext@, all, name@, i as nat),
        decreases 100 - i,
    {
        name = with_number(&stem, i, &ext);
        i += 1;
    }
    name
}

// ---------------------------------------------------------------------
// Order
// ---------------------------------------------------------------------

/// A character's number.
pub open spec fn code(c: char) -> u32 {
    c as u32
}

/// Whether a text comes before another, by character codes from `i` on.
pub open spec fn text_before(a: Seq<char>, b: Seq<char>, i: int) -> bool
    decreases a.len() - i,
{
    if i >= a.len() {
        i < b.len()
    } else if i >= b.len() {
        false
    } else if code(a[i]) != code(b[i]) {
        code(a[i]) < code(b[i])
    } else {
        text_before(a, b, i + 1)
    }
}

/// Whether `a` has the smaller key.
pub open spec fn key_before(a: Listed, b: Listed, key: SortKey) -> bool {
    match key {
        SortKey::Name => text_before(lowercase(a.name), lowercase(b.name), 0),
        SortKey::Size => a.size < b.size,
        SortKey::Type => text_before(kind_of(a.name)@, kind_of(b.name)@, 0),
    }
}

/// Directories first, then by the active sort key.
pub open spec fn before(a: Listed, b: Listed, key: SortKey, asc: bool) -> bool {
    if a.is_dir != b.is_dir {
        a.is_dir
    } else if asc {
        key_before(a, b, key)
    } else {
        key_before(b, a, key)
    }
}

/// The listing with `e` put in: behind everything that it does not come
/// before, looking from the end.
pub open spec fn put_in(s: Seq<Listed>, e: Listed, key: SortKey, asc: bool) -> Seq<Listed>
    decreases s.len(),
{
    if s.len() > 0 && before(e, s.last(), key, asc) {
        put_in(s.drop_last(), e, key, asc).push(s.last())
    } else {
        s.push(e)
    }
}

/// The listing in order; entries that are equal in it keep their places.
pub open spec fn sorted(s: Seq<Listed>, key: SortKey, asc: bool) -> Seq<Listed>
    decreases s.len(),
{
    if s.len() == 0 {
        s
    } else {
        put_in(sorted(s.drop_last(), key, asc), s.last(), key, asc)
    }
}

/// Whether a text comes before another, by character codes.
pub fn chars_before(a: &Vec<char>, b: &Vec<char>) -> (r: bool)
    ensures
        r == text_before(a@, b@, 0),
{
    let mut i: usize = 0;
    while i < a.len() && i < b.len()
        invariant
            i <= a@.len(),
            i <= b@.len(),
            text_before(a@, b@, 0) == text_before(a@, b@, i as int),
        decreases a@.len() - i,
    {
        if a[i] as u32 != b[i] as u32 {
            return (a[i] as u32) < b[i] as u32;
        }
        i += 1;
    }
    i < b.len()
}

/// Compares two entries: directories first, then by the active sort key.
pub fn entry_less(a: &Item, b: &Item, key: SortKey, asc: bool) -> (r: bool)
    ensures
        r == before(a@, b@, key, asc),
{
    if a.is_dir != b.is_dir {
        return a.is_dir;
    }
    let (x, y) = if asc { (a, b) } else { (b, a) };
    match key {
        SortKey::Name => {
            let p = lowered(&x.name);
            let q = lowered(&y.name);
            chars_before(&p, &q)
        },
        SortKey::Size => x.size < y.size,
        SortKey::Type => {
            let p = chars_of(file_type(&x.name));
            let q = chars_of(file_type(&y.name));
            chars_before(&p, &q)
        },
    }
}

proof fn lemma_put_in_len(s: Seq<Listed>, e: Listed, key: SortKey, asc: bool)
    ensures
        put_in(s, e, key, asc).len() == s.len() + 1,
    decreases s.len(),
{
    if s.len() > 0 && before(e, s.last(), key, asc) {
        lemma_put_in_len(s.drop_last(), e, key, asc);
    }
}

fn insert(v: &mut Vec<Item>, e: Item, key: SortKey, asc: bool)
    ensures
        item_views(final(v)@) == put_in(item_views(old(v)@), e@, key, asc),
{
    let ghost s = item_views(v@);
    let mut j: usize = v.len();
    let ghost mut tail = Seq::<Listed>::empty();
    assert(s.take(j as int) =~= s);
    assert(put_in(s, e@, key, asc) =~= put_in(s.take(j as int), e@, key, asc) + tail);
    while j > 0 && entry_less(&e, &v[j - 1], key, asc)
        invariant
            j <= v@.len(),
            s == item_views(v@),
            tail == s.skip(j as int),
            put_in(s, e@, key, asc) == put_in(s.take(j as int), e@, key, asc) + tail,
        decreases j,
    {
        let ghost head = s.take(j as int);
        assert(head.last() == v@[j - 1]@);
        assert(head.drop_last() =~= s.take(j - 1));
        proof {
            let rest = put_in(head.drop_last(), e@, key, asc);
            assert(rest.push(head.last()) + tail =~= rest + s.skip(j - 1));
            tail = s.skip(j - 1);
        }
        j -= 1;
    }
    proof {
        let head = s.take(j as int);
        if j == 0 {
            assert(head =~= Seq::<Listed>::empty());
        } else {
            assert(head.last() == v@[j - 1]@);
        }
        assert(put_in(head, e@, key, asc) == head.push(e@));
    }
    let ghost view = e@;
    v.insert(j, e);
    assert(item_views(v@) =~= s.take(j as int).push(view) + s.skip(j as int));
}

/// Sorts a listing: dirs first, then key order; stable.
pub fn sort_entries(entries: Vec<Item>, key: SortKey, asc: bool) -> (r: Vec<Item>)
    ensures
        item_views(r@) == sorted(item_views(entries@), key, asc),
{
    let ghost s = item_views(entries@);
    let mut out: Vec<Item> = Vec::new();
    let mut rest = entries;
    let n = rest.len();
    let mut i: usize = 0;
    assert(item_views(out@) =~= sorted(s.take(0), key, asc));
    while i < n
        invariant
            i <= n,
            n == s.len(),
            item_views(rest@) == s.skip(i as int),
            item_views(out@) == sorted(s.take(i as int), key, asc),
        decreases n - i,
    {
        assert(item_views(rest@).len() == n - i);
        let ghost before = rest@;
        let e = rest.remove(0);
        proof {
            assert(item_views(before)[0] == s.skip(i as int)[0]);
            assert(s.take(i + 1).drop_last() =~= s.take(i as int));
            assert forall|k: int| 0 <= k < rest@.len() implies #[trigger] item_views(rest@)[k]
                == s.skip(i + 1)[k] by {
                assert(item_views(before)[k + 1] == s.skip(i as int)[k + 1]);
            }
            assert(item_views(rest@) =~= s.skip(i + 1));
        }
        insert(&mut out, e, key, asc);
        i += 1;
    }
    assert(s.take(n as int) =~= s);
    out
}

// ---------------------------------------------------------------------
// The order is one
// ---------------------------------------------------------------------

proof fn lemma_text_total(a: Seq<char>, b: Seq<char>, i: int)
    requires
        0 <= i <= a.len(),
        i <= b.len(),
    ensures
        !(text_before(a, b, i) && text_before(b, a, i)),
    decreases a.len() - i,
{
    if i < a.len() && i < b.len() && code(a[i]) == code(b[i]) {
        lemma_text_total(a, b, i + 1);
    }
}

proof fn lemma_text_transitive(a: Seq<char>, b: Seq<char>, c: Seq<char>, i: int)
    requires
        0 <= i <= a.len(),
        i <= b.len(),
        i <= c.len(),
    ensures
        !text_before(b, a, i) && !text_before(c, b, i) ==> !text_before(c, a, i),
    decreases a.len() - i,
{
    if i < a.len() && i < b.len() && i < c.len() {
        if code(a[i]) == code(b[i]) && code(b[i]) == code(c[i]) {
            lemma_text_transitive(a, b, c, i + 1);
        }
    }
}

proof fn lemma_order(a: Listed, b: Listed, c: Listed, key: SortKey, asc: bool)
    ensures
        !(before(a, b, key, asc) && before(b, a, key, asc)),
        !before(b, a, key, asc) && !before(c, b, key, asc) ==> !before(c, a, key, asc),
{
    lemma_text_total(lowercase(a.name), lowercase(b.name), 0);
    lemma_text_transitive(lowercase(a.name), lowercase(b.name), lowercase(c.name), 0);
    lemma_text_transitive(lowercase(c.name), lowercase(b.name), lowercase(a.name), 0);
    lemma_text_total(kind_of(a.name)@, kind_of(b.name)@, 0);
    lemma_text_transitive(kind_of(a.name)@, kind_of(b.name)@, kind_of(c.name)@, 0);
    lemma_text_transitive(kind_of(c.name)@, kind_of(b.name)@, kind_of(a.name)@, 0);
}

/// Whether nothing comes before what stands ahead of it.
pub open spec fn in_order(s: Seq<Listed>, key: SortKey, asc: bool) -> bool {
    forall|i: int, j: int| 0 <= i < j < s.len() ==> !before(#[trigger] s[j], #[trigger] s[i], key, asc)
}

proof fn lemma_put_in(s: Seq<Listed>, e: Listed, key: SortKey, asc: bool)
    requires
        in_order(s, key, asc),
    ensures
        in_order(put_in(s, e, key, asc), key, asc),
        put_in(s, e, key, asc).to_multiset() == s.to_multiset().insert(e),
    decreases s.len(),
{
    broadcast use vstd::seq_lib::group_to_multiset_ensures;

    let r = put_in(s, e, key, asc);
    lemma_put_in_len(s, e, key, asc);
    if s.len() > 0 && before(e, s.last(), key, asc) {
        let head = s.drop_last();
        assert(in_order(head, key, asc)) by {
            assert forall|i: int, j: int| 0 <= i < j < head.len() implies !before(
                #[trigger] head[j],
                #[trigger] head[i],
                key,
                asc,
            ) by {
                assert(head[j] == s[j] && head[i] == s[i]);
            }
        }
        lemma_put_in(head, e, key, asc);
        lemma_put_in_len(head, e, key, asc);
        let t = put_in(head, e, key, asc);
        lemma_put_in_last(head, e, s.last(), key, asc);
        assert forall|i: int, j: int| 0 <= i < j < r.len() implies !before(
            #[trigger] r[j],
            #[trigger] r[i],
            key,
            asc,
        ) by {
            if j < t.len() {
                assert(r[j] == t[j] && r[i] == t[i]);
            } else {
                assert(r[i] == t[i]);
                assert(!before(s.last(), t[i], key, asc));
            }
        }
        assert(s =~= head.push(s.last()));
        assert(t.push(s.last()).to_multiset() =~= s.to_multiset().insert(e));
    } else {
        assert forall|i: int, j: int| 0 <= i < j < r.len() implies !before(
            #[trigger] r[j],
            #[trigger] r[i],
            key,
            asc,
        ) by {
            if j < s.len() {
                assert(r[j] == s[j] && r[i] == s[i]);
            } else {
                lemma_order(s[i], s.last(), e, key, asc);
                if i < s.len() - 1 {
                    assert(!before(s[s.len() - 1], s[i], key, asc));
                }
            }
        }
    }
}

proof fn lemma_put_in_last(s: Seq<Listed>, e: Listed, top: Listed, key: SortKey, asc: bool)
    requires
        before(e, top, key, asc),
        forall|i: int| 0 <= i < s.len() ==> !before(top, #[trigger] s[i], key, asc),
    ensures
        forall|i: int|
            0 <= i < put_in(s, e, key, asc).len() ==> !before(
                top,
                #[trigger] put_in(s, e, key, asc)[i],
                key,
                asc,
            ),
    decreases s.len(),
{
    lemma_order(e, top, top, key, asc);
    let r = put_in(s, e, key, asc);
    if s.len() > 0 && before(e, s.last(), key, asc) {
        let head = s.drop_last();
        assert forall|i: int| 0 <= i < head.len() implies !before(top, #[trigger] head[i], key, asc) by {
            assert(head[i] == s[i]);
        }
        lemma_put_in_last(head, e, top, key, asc);
        let t = put_in(head, e, key, asc);
        assert forall|i: int| 0 <= i < r.len() implies !before(top, #[trigger] r[i], key, asc) by {
            if i < t.len() {
                assert(r[i] == t[i]);
            } else {
                assert(r[i] == s[s.len() - 1]);
            }
        }
    }
}

/// Whether neither of two entries comes before the other.
pub open spec fn tied(a: Listed, b: Listed, key: SortKey, asc: bool) -> bool {
    !before(a, b, key, asc) && !before(b, a, key, asc)
}

/// The entries of a listing that are tied with `e`, in their order.
pub open spec fn ties(s: Seq<Listed>, e: Listed, key: SortKey, asc: bool) -> Seq<Listed>
    decreases s.len(),
{
    if s.len() == 0 {
        s
    } else {
        let head = ties(s.drop_last(), e, key, asc);
        if tied(s.last(), e, key, asc) {
            head.push(s.last())
        } else {
            head
        }
    }
}

/// Sorting is stable: entries that are tied stand in the order in which
/// they stood before.
pub proof fn law_sorting_is_stable(s: Seq<Listed>, e: Listed, key: SortKey, asc: bool)
    ensures
        ties(sorted(s, key, asc), e, key, asc) == ties(s, e, key, asc),
    decreases s.len(),
{
    if s.len() > 0 {
        let head = sorted(s.drop_last(), key, asc);
        law_sorting_is_stable(s.drop_last(), e, key, asc);
        lemma_put_in_ties(head, s.last(), e, key, asc);
    }
}

proof fn lemma_put_in_ties(s: Seq<Listed>, x: Listed, e: Listed, key: SortKey, asc: bool)
    ensures
        ties(put_in(s, x, key, asc), e, key, asc) == if tied(x, e, key, asc) {
            ties(s, e, key, asc).push(x)
        } else {
            ties(s, e, key, asc)
        },
    decreases s.len(),
{
    let r = put_in(s, x, key, asc);
    if s.len() > 0 && before(x, s.last(), key, asc) {
        let head = s.drop_last();
        lemma_put_in_ties(head, x, e, key, asc);
        assert(r.drop_last() =~= put_in(head, x, key, asc));
        if tied(x, e, key, asc) && tied(s.last(), e, key, asc) {
            lemma_order(s.last(), e, x, key, asc);
        }
    } else {
        assert(r.drop_last() =~= s);
    }
}

/// Sorting gives an ordered listing with the same entries.
pub proof fn law_sorted(s: Seq<Listed>, key: SortKey, asc: bool)
    ensures
        in_order(sorted(s, key, asc), key, asc),
        sorted(s, key, asc).to_multiset() == s.to_multiset(),
    decreases s.len(),
{
    broadcast use vstd::seq_lib::group_to_multiset_ensures;

    if s.len() > 0 {
        law_sorted(s.drop_last(), key, asc);
        lemma_put_in(sorted(s.drop_last(), key, asc), s.last(), key, asc);
        assert(s =~= s.drop_last().push(s.last()));
    }
}

/// A size is shown in the largest unit that it fills, as whole units and
/// tenths, and what is shown is less than a tenth below it.
pub proof fn law_shown_size(bytes: nat) -> (r: (nat, nat))
    requires
        bytes >= 1024,
    ensures
        r.1 < 10,
        bytes >= 1048576 ==> size_text(bytes) == dec(r.0) + "."@ + dec(r.1) + " MiB"@ && (10 * r.0 + r.1) * 1048576
            <= 10 * bytes < (10 * r.0 + r.1 + 1) * 1048576,
        bytes < 1048576 ==> size_text(bytes) == dec(r.0) + "."@ + dec(r.1) + " KiB"@ && (10 * r.0 + r.1) * 1024 <= 10
            * bytes < (10 * r.0 + r.1 + 1) * 1024,
{
    if bytes >= 1048576 {
        (bytes / 1048576, bytes % 1048576 * 10 / 1048576)
    } else {
        (bytes / 1024, bytes % 1024 * 10 / 1024)
    }
}

} // verus!
