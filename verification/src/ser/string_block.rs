//! The string block of a blob: the NUL-terminated property names, each
//! stored once, that structure-block entries refer to by offset.

use vstd::prelude::*;
use vstd::string::StringSliceAdditionalSpecFns;
use vstd::utf8::valid_utf8;

verus! {

/// Index `p` is the first NUL byte of `bytes` at or after `offset`.
pub open spec fn is_first_nul(bytes: Seq<u8>, offset: int, p: int) -> bool {
    &&& 0 <= offset <= p < bytes.len()
    &&& bytes[p] == 0
    &&& forall|k: int| offset <= k < p ==> bytes[k] != 0
}

/// Some NUL byte follows `offset` in `bytes`.
pub open spec fn has_nul_after(bytes: Seq<u8>, offset: int) -> bool {
    exists|p: int| offset <= p < bytes.len() && bytes[p] == 0
}

/// The first NUL byte of `bytes` at or after `offset`, where there is one.
pub open spec fn first_nul(bytes: Seq<u8>, offset: int) -> int {
    choose|p: int| is_first_nul(bytes, offset, p)
}

/// Where there is a NUL after `offset`, `first_nul` finds the first one.
pub proof fn lemma_first_nul(bytes: Seq<u8>, offset: int)
    requires
        0 <= offset,
        has_nul_after(bytes, offset),
    ensures
        is_first_nul(bytes, offset, first_nul(bytes, offset)),
    decreases bytes.len() - offset,
{
    if bytes[offset] == 0 {
        assert(is_first_nul(bytes, offset, offset));
    } else {
        let q = choose|q: int| offset <= q < bytes.len() && bytes[q] == 0;
        assert(has_nul_after(bytes, offset + 1)) by {
            assert(offset + 1 <= q);
        }
        lemma_first_nul(bytes, offset + 1);
        let p = first_nul(bytes, offset + 1);
        assert(is_first_nul(bytes, offset, p));
    }
}

/// Walking the strings of `bytes` from `pos` up to `end`, each ending at its
/// first NUL: the offset of the first one equal to `name`, if any.
pub open spec fn scan_find(bytes: Seq<u8>, pos: int, end: int, name: Seq<u8>) -> Option<int>
    decreases end - pos,
{
    if pos < 0 || pos >= end {
        None
    } else {
        let p = first_nul(bytes, pos);
        if p < pos {
            None
        } else if bytes.subrange(pos, p) == name {
            Some(pos)
        } else if p + 1 >= end {
            None
        } else {
            scan_find(bytes, p + 1, end, name)
        }
    }
}

/// Every string that the walk of `scan_find` reads has a terminating NUL.
pub open spec fn scan_defined(bytes: Seq<u8>, pos: int, end: int, name: Seq<u8>) -> bool
    decreases end - pos,
{
    if pos < 0 || pos >= end {
        true
    } else {
        let p = first_nul(bytes, pos);
        &&& has_nul_after(bytes, pos)
        &&& (p < pos || bytes.subrange(pos, p) == name || p + 1 >= end || scan_defined(
            bytes,
            p + 1,
            end,
            name,
        ))
    }
}

/// What the walk finds is a whole string equal to `name`: an offset in
/// `pos..end` whose string, read up to its first NUL, is exactly `name`.
pub proof fn law_scan_find_finds_whole_string(bytes: Seq<u8>, pos: int, end: int, name: Seq<u8>)
    requires
        0 <= pos,
        scan_defined(bytes, pos, end, name),
    ensures
        scan_find(bytes, pos, end, name) matches Some(o) ==> {
            &&& pos <= o < end
            &&& is_first_nul(bytes, o, o + name.len())
            &&& bytes.subrange(o, o + name.len()) == name
        },
    decreases end - pos,
{
    if pos < end {
        lemma_first_nul(bytes, pos);
        let p = first_nul(bytes, pos);
        if bytes.subrange(pos, p) == name {
            assert(p == pos + name.len());
        } else if p + 1 < end {
            law_scan_find_finds_whole_string(bytes, p + 1, end, name);
        }
    }
}

/// The walk stops at the first string equal to `name`: when the string at
/// `pos`, up to its first NUL, is `name`, the walk from `pos` finds `pos`; when
/// it is not, the walk from `pos` finds what the walk from the next string
/// finds.
pub proof fn law_scan_find_first(bytes: Seq<u8>, pos: int, end: int, name: Seq<u8>, p: int)
    requires
        0 <= pos < end,
        is_first_nul(bytes, pos, p),
    ensures
        bytes.subrange(pos, p) == name ==> scan_find(bytes, pos, end, name) == Some(pos),
        bytes.subrange(pos, p) != name && p + 1 < end ==> scan_find(bytes, pos, end, name)
            == scan_find(bytes, p + 1, end, name),
        bytes.subrange(pos, p) != name && p + 1 >= end ==> scan_find(bytes, pos, end, name)
            is None,
{
    assert(has_nul_after(bytes, pos));
    lemma_first_nul(bytes, pos);
    let q = first_nul(bytes, pos);
    if q < p {
        assert(bytes[q] != 0);
    }
    if p < q {
        assert(bytes[p] != 0);
    }
    assert(q == p);
}

/// `name` holds no NUL byte.
pub open spec fn nul_free(name: Seq<u8>) -> bool {
    forall|k: int| 0 <= k < name.len() ==> name[k] != 0
}

/// `name`, followed by its terminating NUL, lies at `offset` below `end`, and,
/// where there is a buffer, is written there.
pub open spec fn stored_at(data: Option<Seq<u8>>, end: int, name: Seq<u8>, offset: int) -> bool {
    &&& 0 <= offset
    &&& offset + name.len() + 1 <= end
    &&& data matches Some(d) ==> {
        &&& offset + name.len() < d.len()
        &&& d.subrange(offset, offset + name.len()) == name
        &&& d[offset + name.len()] == 0
    }
}

/// The map from name bytes to offset that a list of entries gives, a later
/// entry for a name replacing an earlier one.
pub open spec fn entries_map(entries: Seq<(Seq<u8>, usize)>) -> Map<Seq<u8>, usize>
    decreases entries.len(),
{
    if entries.len() == 0 {
        Map::empty()
    } else {
        entries_map(entries.drop_last()).insert(entries.last().0, entries.last().1)
    }
}

/// `d` with `ins` written over it from `at` on.
pub open spec fn splice(d: Seq<u8>, at: int, ins: Seq<u8>) -> Seq<u8> {
    d.take(at) + ins + d.skip(at + ins.len())
}

/// Where `end` is rounded up to a multiple of 8.
pub open spec fn align_up(end: int) -> int {
    if end % 8 == 0 {
        end
    } else {
        end + 8 - end % 8
    }
}

/// Key `key` is mapped to the offset of its last entry.
pub proof fn lemma_entries_map_last(entries: Seq<(Seq<u8>, usize)>, key: Seq<u8>, i: int)
    requires
        0 <= i < entries.len(),
        entries[i].0 == key,
        forall|j: int| i < j < entries.len() ==> #[trigger] entries[j].0 != key,
    ensures
        entries_map(entries).contains_key(key),
        entries_map(entries)[key] == entries[i].1,
    decreases entries.len(),
{
    if i < entries.len() - 1 {
        let init = entries.drop_last();
        assert forall|j: int| i < j < init.len() implies #[trigger] init[j].0 != key by {
            assert(init[j] == entries[j]);
        }
        lemma_entries_map_last(init, key, i);
    }
}

/// A mapped key has an entry that gives its offset.
pub proof fn lemma_entries_map_entry(entries: Seq<(Seq<u8>, usize)>, key: Seq<u8>) -> (i: int)
    requires
        entries_map(entries).contains_key(key),
    ensures
        0 <= i < entries.len(),
        entries[i] == (key, entries_map(entries)[key]),
    decreases entries.len(),
{
    let init = entries.drop_last();
    if entries.last().0 == key {
        entries.len() - 1
    } else {
        let j = lemma_entries_map_entry(init, key);
        assert(entries[j] == init[j]);
        j
    }
}

/// A key without an entry is not mapped.
pub proof fn lemma_entries_map_absent(entries: Seq<(Seq<u8>, usize)>, key: Seq<u8>)
    requires
        forall|j: int| 0 <= j < entries.len() ==> #[trigger] entries[j].0 != key,
    ensures
        !entries_map(entries).contains_key(key),
    decreases entries.len(),
{
    if entries.len() > 0 {
        let init = entries.drop_last();
        assert forall|j: int| 0 <= j < init.len() implies #[trigger] init[j].0 != key by {
            assert(init[j] == entries[j]);
        }
        lemma_entries_map_absent(init, key);
        assert(entries[entries.len() - 1].0 != key);
    }
}

/// Whether two byte strings are equal.
fn bytes_eq(a: &[u8], b: &[u8]) -> (eq: bool)
    ensures
        eq == (a@ == b@),
{
    if a.len() != b.len() {
        return false;
    }
    let mut i: usize = 0;
    while i < a.len()
        invariant
            a@.len() == b@.len(),
            i <= a@.len(),
            forall|k: int| 0 <= k < i ==> a@[k] == b@[k],
        decreases a@.len() - i,
    {
        if a[i] != b[i] {
            return false;
        }
        i = i + 1;
    }
    assert(a@ =~= b@);
    true
}

/// `core::str::from_utf8`, which its documentation describes as returning the
/// string slice made of exactly `bytes` when they are valid UTF-8, and an
/// error otherwise.
#[verifier::external_body]
fn str_from_utf8(bytes: &[u8]) -> (s: Option<&str>)
    ensures
        s is Some <==> valid_utf8(bytes@),
        s matches Some(s) ==> s.spec_bytes() == bytes@,
{
    core::str::from_utf8(bytes).ok()
}

/// The string block. Strings are appended at `end`, into the buffer when there
/// is one; without a buffer only `end` and the names are kept, which is how
/// the block's length is measured before a buffer exists.
pub struct StringBlock<'se> {
    end: usize,
    data: Option<Vec<u8>>,
    tree: Vec<(&'se str, usize)>,
}

impl<'se> StringBlock<'se> {
    /// Offset at which the next string goes.
    pub closed spec fn spec_end(&self) -> usize {
        self.end
    }

    /// Contents of the buffer, if there is one.
    pub closed spec fn bytes(&self) -> Option<Seq<u8>> {
        match self.data {
            Some(d) => Some(d@),
            None => None,
        }
    }

    /// The entries, as name bytes and offset, in the order they were added.
    pub closed spec fn entries(&self) -> Seq<(Seq<u8>, usize)> {
        self.tree@.map_values(|e: (&'se str, usize)| (e.0.spec_bytes(), e.1))
    }

    /// Offset of each name inserted so far (its latest insertion).
    pub open spec fn names(&self) -> Map<Seq<u8>, usize> {
        entries_map(self.entries())
    }

    /// Every entry is stored at its offset.
    pub open spec fn wf(&self) -> bool {
        forall|i: int|
            0 <= i < self.entries().len() ==> stored_at(
                self.bytes(),
                self.spec_end() as int,
                #[trigger] self.entries()[i].0,
                self.entries()[i].1 as int,
            )
    }

    /// What appending `name` and its NUL at `old.spec_end()` makes of `old`:
    /// the state `new`, with `r` the offset the name was stored at.
    pub open spec fn appended(old: Self, name: Seq<u8>, new: Self, r: usize) -> bool {
        &&& r == old.spec_end()
        &&& new.spec_end() == old.spec_end() + name.len() + 1
        &&& new.bytes() == match old.bytes() {
            Some(d) => Some(splice(d, r as int, name.push(0u8))),
            None => None,
        }
        &&& new.names() == old.names().insert(name, r)
        &&& new.wf()
    }

    /// What `find_or_insert(name)` makes of `old`: a name already recorded
    /// gives its offset and leaves the block as it was; any other is appended.
    pub open spec fn found_or_inserted(old: Self, name: Seq<u8>, new: Self, r: usize) -> bool {
        if old.names().contains_key(name) {
            r == old.names()[name] && new == old
        } else {
            Self::appended(old, name, new, r)
        }
    }

    /// There is room to append `len` bytes: `end` does not overflow and the
    /// buffer, if any, is long enough.
    pub open spec fn has_room(&self, len: int) -> bool {
        &&& self.spec_end() + len <= usize::MAX
        &&& self.bytes() matches Some(d) ==> self.spec_end() + len <= d.len()
    }

    /// Makes a string block that writes into `dst`, if given, from `end` on.
    pub fn new(dst: Option<Vec<u8>>, end: usize) -> (block: StringBlock<'se>)
        ensures
            block.spec_end() == end,
            block.bytes() == match dst {
                Some(d) => Some(d@),
                None => None::<Seq<u8>>,
            },
            block.names() == Map::<Seq<u8>, usize>::empty(),
            block.wf(),
    {
        let block = StringBlock { data: dst, tree: Vec::new(), end };
        assert(block.entries() =~= Seq::empty());
        block
    }

    /// Offset at which the next string goes.
    pub fn end(&self) -> (end: usize)
        ensures
            end == self.spec_end(),
    {
        self.end
    }

    /// The buffer, if there is one.
    pub fn data(&self) -> (data: Option<&[u8]>)
        ensures
            match data {
                Some(d) => self.bytes() == Some(d@),
                None => self.bytes() is None,
            },
    {
        match &self.data {
            Some(d) => Some(d.as_slice()),
            None => None,
        }
    }

    proof fn lemma_entries_push(&self, new: &Self, name: &'se str, offset: usize)
        requires
            new.tree@ == self.tree@.push((name, offset)),
        ensures
            new.entries() == self.entries().push((name.spec_bytes(), offset)),
            new.names() == self.names().insert(name.spec_bytes(), offset),
    {
        assert(new.entries() =~= self.entries().push((name.spec_bytes(), offset)));
        assert(new.entries().drop_last() =~= self.entries());
    }

    /// Every recorded name is the UTF-8 encoding of a string.
    proof fn lemma_names_valid_utf8(&self, i: int)
        requires
            0 <= i < self.entries().len(),
        ensures
            valid_utf8(self.entries()[i].0),
    {
        vstd::utf8::encode_utf8_valid_utf8(self.tree@[i].0@);
    }

    /// Stored entries stay stored when the bytes below the old end are kept and
    /// the end grows.
    proof fn lemma_wf_kept(&self, new: &Self)
        requires
            self.wf(),
            new.entries() == self.entries(),
            new.spec_end() >= self.spec_end(),
            self.bytes() is Some <==> new.bytes() is Some,
            self.bytes() matches Some(d) ==> {
                &&& new.bytes().unwrap().len() == d.len()
                &&& forall|k: int|
                    0 <= k < self.spec_end() && k < d.len() ==> #[trigger] new.bytes().unwrap()[k]
                        == d[k]
            },
        ensures
            new.wf(),
    {
        assert forall|i: int| 0 <= i < new.entries().len() implies stored_at(
            new.bytes(),
            new.spec_end() as int,
            #[trigger] new.entries()[i].0,
            new.entries()[i].1 as int,
        ) by {
            let n = self.entries()[i].0;
            let o = self.entries()[i].1 as int;
            assert(stored_at(self.bytes(), self.spec_end() as int, self.entries()[i].0, o));
            if let Some(d) = self.bytes() {
                let d2 = new.bytes().unwrap();
                assert(d2.subrange(o, o + n.len()) =~= d.subrange(o, o + n.len()));
                assert(d2[o + n.len()] == d[o + n.len()]);
            }
        }
    }

    /// Writes `data` at `index` when there is a buffer.
    fn write_u8(&mut self, index: usize, data: u8)
        requires
            old(self).bytes() matches Some(d) ==> index < d.len(),
        ensures
            final(self).spec_end() == old(self).spec_end(),
            final(self).tree == old(self).tree,
            final(self).bytes() == match old(self).bytes() {
                Some(d) => Some(d.update(index as int, data)),
                None => None,
            },
    {
        if let Some(buffer) = &mut self.data {
            buffer.set(index, data);
        }
    }

    /// Appends one byte.
    fn insert_u8(&mut self, data: u8)
        requires
            old(self).wf(),
            old(self).has_room(1),
        ensures
            final(self).wf(),
            final(self).spec_end() == old(self).spec_end() + 1,
            final(self).tree == old(self).tree,
            final(self).bytes() == match old(self).bytes() {
                Some(d) => Some(d.update(old(self).spec_end() as int, data)),
                None => None,
            },
    {
        let ghost before = *self;
        let end = self.end;
        self.write_u8(end, data);
        self.end = end + 1;
        proof {
            before.lemma_wf_kept(self);
        }
    }

    /// Appends `name` and a NUL, records the name at the offset it starts at,
    /// and returns that offset.
    pub fn insert_str(&mut self, name: &'se str) -> (offset: usize)
        requires
            old(self).wf(),
            old(self).has_room(name.spec_bytes().len() + 1 as int),
        ensures
            Self::appended(*old(self), name.spec_bytes(), *final(self), offset),
    {
        let ghost before = *self;
        let result = self.end;
        let bytes = name.as_bytes();
        let mut i: usize = 0;
        while i < bytes.len()
            invariant
                before.wf(),
                before.has_room(bytes@.len() + 1 as int),
                bytes@ == name.spec_bytes(),
                result == before.spec_end(),
                i <= bytes@.len(),
                self.wf(),
                self.tree == before.tree,
                self.spec_end() == result + i,
                self.bytes() == match before.bytes() {
                    Some(d) => Some(splice(d, result as int, bytes@.take(i as int))),
                    None => None,
                },
            decreases bytes@.len() - i,
        {
            self.insert_u8(bytes[i]);
            proof {
                if let Some(d) = before.bytes() {
                    assert(splice(d, result as int, bytes@.take(i as int)).update(
                        result + i,
                        bytes@[i as int],
                    ) =~= splice(d, result as int, bytes@.take(i + 1)));
                }
            }
            i = i + 1;
        }
        self.insert_u8(0);
        let ghost written = *self;
        proof {
            assert(bytes@.take(bytes@.len() as int) =~= bytes@);
            if let Some(d) = before.bytes() {
                assert(splice(d, result as int, bytes@).update(result + bytes@.len(), 0u8)
                    =~= splice(d, result as int, bytes@.push(0u8)));
            }
        }
        self.tree.push((name, result));
        proof {
            written.lemma_entries_push(self, name, result);
            let n = name.spec_bytes();
            assert forall|j: int| 0 <= j < self.entries().len() implies stored_at(
                self.bytes(),
                self.spec_end() as int,
                #[trigger] self.entries()[j].0,
                self.entries()[j].1 as int,
            ) by {
                if j < written.entries().len() {
                    assert(self.entries()[j] == written.entries()[j]);
                } else {
                    if let Some(d) = before.bytes() {
                        let d2 = self.bytes().unwrap();
                        assert(d2.subrange(result as int, result + n.len()) =~= n);
                    }
                }
            }
        }
        result
    }

    /// Pads the block with NUL bytes until its end is a multiple of 8.
    pub fn align(&mut self)
        requires
            old(self).wf(),
            old(self).has_room(align_up(old(self).spec_end() as int) - old(self).spec_end()),
        ensures
            final(self).wf(),
            final(self).spec_end() == align_up(old(self).spec_end() as int),
            final(self).names() == old(self).names(),
            final(self).bytes() == match old(self).bytes() {
                Some(d) => Some(
                    splice(
                        d,
                        old(self).spec_end() as int,
                        Seq::new((final(self).spec_end() - old(self).spec_end()) as nat, |k: int| 0u8),
                    ),
                ),
                None => None,
            },
    {
        let ghost before = *self;
        let ghost target = align_up(before.spec_end() as int);
        while (self.end & 0b111) != 0
            invariant
                before.wf(),
                before.has_room(target - before.spec_end()),
                target == align_up(before.spec_end() as int),
                self.wf(),
                self.tree == before.tree,
                before.spec_end() <= self.spec_end() <= target,
                self.bytes() == match before.bytes() {
                    Some(d) => Some(
                        splice(
                            d,
                            before.spec_end() as int,
                            Seq::new((self.spec_end() - before.spec_end()) as nat, |k: int| 0u8),
                        ),
                    ),
                    None => None,
                },
            decreases target - self.spec_end(),
        {
            let e = self.end;
            assert(e & 7 == e % 8) by (bit_vector);
            self.insert_u8(0);
            proof {
                if let Some(d) = before.bytes() {
                    let b = before.spec_end() as int;
                    assert(splice(d, b, Seq::new((e - b) as nat, |k: int| 0u8)).update(
                        e as int,
                        0u8,
                    ) =~= splice(d, b, Seq::new((e + 1 - b) as nat, |k: int| 0u8)));
                }
            }
        }
        let e = self.end;
        assert(e & 7 == e % 8) by (bit_vector);
    }

    /// Reads the string that starts at `offset`, up to the next NUL, and
    /// returns it with the offset just past that NUL.
    pub fn get_str_by_offset(&self, offset: usize) -> (res: (&str, usize))
        requires
            offset <= self.spec_end(),
            self.bytes() is Some,
            has_nul_after(self.bytes().unwrap(), offset as int),
            forall|p: int|
                is_first_nul(self.bytes().unwrap(), offset as int, p) ==> valid_utf8(
                    self.bytes().unwrap().subrange(offset as int, p),
                ),
        ensures
            is_first_nul(self.bytes().unwrap(), offset as int, res.1 - 1),
            res.0.spec_bytes() == self.bytes().unwrap().subrange(offset as int, res.1 - 1),
    {
        match &self.data {
            Some(data) => {
                let ghost d = data@;
                let ghost nul = choose|p: int| offset <= p < d.len() && d[p] == 0;
                let mut pos = offset;
                while data[pos] != 0
                    invariant
                        d == data@,
                        offset <= pos <= nul < d.len() == data.len(),
                        d[nul] == 0,
                        forall|k: int| offset <= k < pos ==> d[k] != 0,
                    decreases nul - pos,
                {
                    pos = pos + 1;
                }
                let slice = vstd::slice::slice_subrange(data.as_slice(), offset, pos);
                match str_from_utf8(slice) {
                    Some(s) => (s, pos + 1),
                    None => {
                        proof {
                            assert(is_first_nul(d, offset as int, pos as int));
                        }
                        ("", pos + 1)
                    },
                }
            },
            None => ("", offset),
        }
    }

    /// Walks the strings of the buffer from offset 0 up to the end and returns
    /// the offset of the first one equal to `key`.
    fn scan(&self, key: &[u8]) -> (found: Option<usize>)
        requires
            self.bytes() is Some,
            scan_defined(self.bytes().unwrap(), 0, self.spec_end() as int, key@),
        ensures
            found matches Some(o) ==> scan_find(
                self.bytes().unwrap(),
                0,
                self.spec_end() as int,
                key@,
            ) == Some(o as int),
            found is None ==> scan_find(self.bytes().unwrap(), 0, self.spec_end() as int, key@)
                is None,
    {
        let end = self.end;
        let mut current_pos: usize = 0;
        let ghost d = self.bytes().unwrap();
        let ghost found = scan_find(d, 0, end as int, key@);
        if let Some(data) = &self.data {
            while current_pos < end
                invariant
                    d == data@,
                    d == self.bytes().unwrap(),
                    end == self.spec_end(),
                    found == scan_find(d, 0, end as int, key@),
                    found == scan_find(d, current_pos as int, end as int, key@),
                    scan_defined(d, current_pos as int, end as int, key@),
                    current_pos <= d.len(),
                decreases d.len() - current_pos,
            {
                proof {
                    lemma_first_nul(d, current_pos as int);
                }
                let ghost p = first_nul(d, current_pos as int);
                let mut pos = current_pos;
                while data[pos] != 0
                    invariant
                        d == data@,
                        current_pos <= pos <= p < d.len() == data.len(),
                        is_first_nul(d, current_pos as int, p),
                    decreases p - pos,
                {
                    pos = pos + 1;
                }
                assert(pos == p);
                let slice = vstd::slice::slice_subrange(data.as_slice(), current_pos, pos);
                if bytes_eq(slice, key) {
                    assert(d.subrange(current_pos as int, p) == key@);
                    return Some(current_pos);
                }
                current_pos = pos + 1;
            }
        }
        None
    }

    /// Looks for `name` among the strings of the buffer, walking them from
    /// offset 0 up to the end; returns the offset of the first equal one, or
    /// else inserts `name` and returns its new offset.
    pub fn find_or_insert_by_scan(&mut self, name: &'se str) -> (offset: usize)
        requires
            old(self).wf(),
            old(self).bytes() is Some,
            scan_defined(
                old(self).bytes().unwrap(),
                0,
                old(self).spec_end() as int,
                name.spec_bytes(),
            ),
            scan_find(old(self).bytes().unwrap(), 0, old(self).spec_end() as int, name.spec_bytes())
                is None ==> old(self).has_room(name.spec_bytes().len() + 1 as int),
        ensures
            ({
                let found = scan_find(
                    old(self).bytes().unwrap(),
                    0,
                    old(self).spec_end() as int,
                    name.spec_bytes(),
                );
                &&& found matches Some(o) ==> offset == o && *final(self) == *old(self)
                &&& found is Some ==> {
                    let d = old(self).bytes().unwrap();
                    &&& offset < old(self).spec_end()
                    &&& is_first_nul(d, offset as int, offset + name.spec_bytes().len())
                    &&& d.subrange(offset as int, offset + name.spec_bytes().len())
                        == name.spec_bytes()
                }
                &&& found is None ==> Self::appended(
                    *old(self),
                    name.spec_bytes(),
                    *final(self),
                    offset,
                )
            }),
    {
        proof {
            law_scan_find_finds_whole_string(
                self.bytes().unwrap(),
                0,
                self.spec_end() as int,
                name.spec_bytes(),
            );
        }
        match self.scan(name.as_bytes()) {
            Some(offset) => offset,
            None => self.insert_str(name),
        }
    }

    /// Returns the offset of `name` if it was inserted before; otherwise
    /// inserts it and returns its new offset.
    pub fn find_or_insert(&mut self, name: &'se str) -> (offset: usize)
        requires
            old(self).wf(),
            !old(self).names().contains_key(name.spec_bytes()) ==> old(self).has_room(
                name.spec_bytes().len() + 1 as int,
            ),
        ensures
            Self::found_or_inserted(*old(self), name.spec_bytes(), *final(self), offset),
    {
        let key = name.as_bytes();
        let mut i = self.tree.len();
        while i > 0
            invariant
                i <= self.tree@.len(),
                key@ == name.spec_bytes(),
                self.entries().len() == self.tree@.len(),
                forall|j: int| i <= j < self.entries().len() ==> #[trigger] self.entries()[j].0 != key@,
            decreases i,
        {
            i = i - 1;
            let (entry, at) = self.tree[i];
            assert(self.entries()[i as int] == (entry.spec_bytes(), at));
            if bytes_eq(entry.as_bytes(), key) {
                proof {
                    lemma_entries_map_last(self.entries(), key@, i as int);
                }
                return at;
            }
        }
        proof {
            lemma_entries_map_absent(self.entries(), key@);
        }
        self.insert_str(name)
    }
}

/// `align_up(end)` is the least multiple of 8 that is at least `end`: it is
/// one, it lies in `end..end + 8`, and it is at most any multiple `m` of 8
/// with `m >= end`.
pub proof fn law_align_up(end: int, m: int)
    requires
        0 <= end,
    ensures
        align_up(end) % 8 == 0,
        end <= align_up(end) < end + 8,
        m >= end && m % 8 == 0 ==> align_up(end) <= m,
{
}

/// A recorded name that holds no NUL byte reads back from the buffer at its
/// offset: the offset is below the end, the first NUL after it ends the name,
/// the bytes before that NUL are the name, and they are valid UTF-8. So
/// `get_str_by_offset` at a name's offset returns that name.
pub proof fn law_recorded_name_reads_back(block: StringBlock, name: Seq<u8>)
    requires
        block.wf(),
        block.bytes() is Some,
        block.names().contains_key(name),
        nul_free(name),
    ensures
        ({
            let d = block.bytes().unwrap();
            let o = block.names()[name] as int;
            &&& o <= block.spec_end()
            &&& has_nul_after(d, o)
            &&& is_first_nul(d, o, o + name.len())
            &&& d.subrange(o, o + name.len()) == name
            &&& valid_utf8(name)
        }),
{
    let d = block.bytes().unwrap();
    let o = block.names()[name] as int;
    let i = lemma_entries_map_entry(block.entries(), name);
    assert(stored_at(block.bytes(), block.spec_end() as int, block.entries()[i].0, o));
    assert forall|k: int| o <= k < o + name.len() implies d[k] != 0 by {
        assert(d[k] == d.subrange(o, o + name.len())[k - o]);
    }
    assert(is_first_nul(d, o, o + name.len()));
    block.lemma_names_valid_utf8(i);
}

/// `find_or_insert` of the same name twice: the second call returns the
/// offset of the first and changes nothing.
pub proof fn law_find_or_insert_twice(
    b0: StringBlock,
    name: Seq<u8>,
    b1: StringBlock,
    r1: usize,
    b2: StringBlock,
    r2: usize,
)
    requires
        StringBlock::found_or_inserted(b0, name, b1, r1),
        StringBlock::found_or_inserted(b1, name, b2, r2),
    ensures
        r2 == r1,
        b2 == b1,
{
}

/// A block that only measures (no buffer) and one that writes, holding the
/// same names at the same offsets and ending at the same place, stay in step
/// under `find_or_insert`: both return the same offset and again agree on
/// names and end. So measuring first gives the length the writing pass
/// produces.
pub proof fn law_find_or_insert_layout_independent_of_buffer(
    a0: StringBlock,
    b0: StringBlock,
    name: Seq<u8>,
    a1: StringBlock,
    ra: usize,
    b1: StringBlock,
    rb: usize,
)
    requires
        a0.spec_end() == b0.spec_end(),
        a0.names() == b0.names(),
        StringBlock::found_or_inserted(a0, name, a1, ra),
        StringBlock::found_or_inserted(b0, name, b1, rb),
    ensures
        ra == rb,
        a1.spec_end() == b1.spec_end(),
        a1.names() == b1.names(),
{
}

} // verus!
