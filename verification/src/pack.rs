//! Packed archives: a little-endian `u32` table of offsets followed by the
//! concatenated files.

use vstd::prelude::*;

verus! {

/// An archive of byte files.
#[derive(Clone)]
pub struct Packed {
    pub files: Vec<Vec<u8>>,
}

impl View for Packed {
    type V = Seq<Seq<u8>>;

    open spec fn view(&self) -> Seq<Seq<u8>> {
        self.files@.map_values(|f: Vec<u8>| f@)
    }
}

/// The little-endian `u32` stored at `pos`.
pub open spec fn u32_at(s: Seq<u8>, pos: int) -> int {
    s[pos] + 256 * s[pos + 1] + 65536 * s[pos + 2] + 16777216 * s[pos + 3]
}

/// The four little-endian bytes of `v`.
pub open spec fn le_bytes(v: int) -> Seq<u8> {
    seq![(v % 256) as u8, ((v / 256) % 256) as u8, ((v / 65536) % 256) as u8, ((v / 16777216) % 256) as u8]
}

/// Sum of the lengths of the files.
pub open spec fn total_len(files: Seq<Seq<u8>>) -> int
    decreases files.len(),
{
    if files.len() == 0 {
        0
    } else {
        total_len(files.drop_last()) + files.last().len()
    }
}

/// The files laid end to end.
pub open spec fn concat_all(files: Seq<Seq<u8>>) -> Seq<u8>
    decreases files.len(),
{
    if files.len() == 0 {
        Seq::empty()
    } else {
        concat_all(files.drop_last()) + files.last()
    }
}

/// The bytes from `a` up to `b`, or nothing when `a` is not below `b`.
pub open spec fn slice_between(data: Seq<u8>, a: int, b: int) -> Seq<u8> {
    if a >= b {
        Seq::empty()
    } else {
        data.subrange(a, b)
    }
}

/// The files that an offset table delimits: each runs to the next offset,
/// the last one to the end of the data.
pub open spec fn files_at(data: Seq<u8>, offsets: Seq<int>) -> Seq<Seq<u8>> {
    Seq::new(
        offsets.len(),
        |i: int|
            if i + 1 < offsets.len() {
                slice_between(data, offsets[i], offsets[i + 1])
            } else {
                data.subrange(offsets[i], data.len() as int)
            },
    )
}

/// Every file that an offset table delimits lies inside the data.
pub open spec fn offsets_fit(data: Seq<u8>, offsets: Seq<int>) -> bool {
    &&& offsets.len() >= 1
    &&& forall|i: int|
        0 <= i < offsets.len() - 1 ==> #[trigger] offsets[i] < offsets[i + 1] ==> offsets[i + 1]
            <= data.len()
    &&& offsets.last() <= data.len()
}

/// The offsets of a counted archive: the count, then that many offsets.
pub open spec fn counted_offsets(data: Seq<u8>) -> Seq<int> {
    Seq::new(u32_at(data, 0) as nat, |i: int| u32_at(data, 4 + 4 * i))
}

/// A counted archive whose table and files lie inside the data.
pub open spec fn is_counted_archive(data: Seq<u8>) -> bool {
    &&& data.len() >= 4
    &&& u32_at(data, 0) != 0 ==> {
        &&& data.len() >= 4 + 4 * u32_at(data, 0)
        &&& offsets_fit(data, counted_offsets(data))
    }
}

/// The offsets that an offset-table archive is read with: as many as a
/// quarter of the first word, read from the word after it on.
pub open spec fn table_offsets(data: Seq<u8>) -> Seq<int> {
    Seq::new((u32_at(data, 0) / 4) as nat, |i: int| u32_at(data, 4 + 4 * i))
}

/// An offset-table archive whose table and files lie inside the data.
pub open spec fn is_table_archive(data: Seq<u8>) -> bool {
    &&& data.len() >= 4
    &&& u32_at(data, 0) != 0 ==> {
        &&& u32_at(data, 0) >= 4
        &&& data.len() >= 4 + 4 * (u32_at(data, 0) / 4)
        &&& offsets_fit(data, table_offsets(data))
    }
}

/// The header words of a counted archive after the count.
pub open spec fn offset_words(files: Seq<Seq<u8>>, base: int, k: int) -> Seq<u8>
    decreases k,
{
    if k <= 0 {
        Seq::empty()
    } else {
        offset_words(files, base, k - 1) + le_bytes(base + total_len(files.take(k - 1)))
    }
}

/// The counted archive that holds `files`.
pub open spec fn counted_bytes(files: Seq<Seq<u8>>) -> Seq<u8> {
    le_bytes(files.len() as int) + offset_words(files, 4 * files.len() as int + 4, files.len() as int)
        + concat_all(files)
}

/// Reads the little-endian `u32` at `pos`.
fn read_u32(data: &Vec<u8>, pos: usize) -> (v: u32)
    requires
        pos + 4 <= data.len(),
    ensures
        v == u32_at(data@, pos as int),
{
    let b0 = data[pos] as u32;
    let b1 = data[pos + 1] as u32;
    let b2 = data[pos + 2] as u32;
    let b3 = data[pos + 3] as u32;
    b0 + 256 * b1 + 65536 * b2 + 16777216 * b3
}

/// Appends the little-endian bytes of `v`.
fn write_u32(out: &mut Vec<u8>, v: u32)
    ensures
        final(out)@ == old(out)@ + le_bytes(v as int),
{
    out.push((v % 256) as u8);
    out.push(((v / 256) % 256) as u8);
    out.push(((v / 65536) % 256) as u8);
    out.push(((v / 16777216) % 256) as u8);
    assert(out@ =~= old(out)@ + le_bytes(v as int));
}

/// A copy of the bytes from `a` up to `b`.
fn copy_range(data: &Vec<u8>, a: usize, b: usize) -> (res: Vec<u8>)
    requires
        a <= b <= data.len(),
    ensures
        res@ == data@.subrange(a as int, b as int),
{
    let mut res: Vec<u8> = Vec::new();
    let mut i = a;
    while i < b
        invariant
            a <= i <= b <= data.len(),
            res@ == data@.subrange(a as int, i as int),
        decreases b - i,
    {
        res.push(data[i]);
        i += 1;
    }
    res
}

/// Reads `count` offsets starting at byte 4.
fn read_offsets(data: &Vec<u8>, count: u32) -> (offsets: Vec<u32>)
    requires
        data.len() >= 4 + 4 * count,
    ensures
        offsets.len() == count,
        forall|i: int| 0 <= i < count ==> offsets@[i] == u32_at(data@, 4 + 4 * i),
{
    let mut offsets: Vec<u32> = Vec::new();
    let mut i: u32 = 0;
    while i < count
        invariant
            data.len() >= 4 + 4 * count,
            i <= count,
            offsets.len() == i,
            forall|j: int| 0 <= j < i ==> offsets@[j] == u32_at(data@, 4 + 4 * j),
        decreases count - i,
    {
        let pos = 4 + 4 * (i as usize);
        offsets.push(read_u32(data, pos));
        i += 1;
    }
    offsets
}

/// Cuts the data into files at the given offsets.
fn files_from_offsets(data: &Vec<u8>, offsets: &Vec<u32>) -> (files: Vec<Vec<u8>>)
    requires
        offsets_fit(data@, offsets@.map_values(|o: u32| o as int)),
    ensures
        files@.map_values(|f: Vec<u8>| f@) == files_at(data@, offsets@.map_values(|o: u32| o as int)),
{
    let ghost offs = offsets@.map_values(|o: u32| o as int);
    let mut files: Vec<Vec<u8>> = Vec::new();
    let mut i: usize = 0;
    while i < offsets.len() - 1
        invariant
            offs == offsets@.map_values(|o: u32| o as int),
            offsets_fit(data@, offs),
            i <= offsets.len() - 1,
            files.len() == i,
            forall|j: int| 0 <= j < i ==> #[trigger] files@[j]@ == files_at(data@, offs)[j],
        decreases offsets.len() - 1 - i,
    {
        if offsets[i] >= offsets[i + 1] {
            files.push(Vec::new());
        } else {
            assert(offs[i as int] < offs[i as int + 1]);
            files.push(copy_range(data, offsets[i] as usize, offsets[i + 1] as usize));
        }
        i += 1;
    }
    let last = offsets[offsets.len() - 1] as usize;
    files.push(copy_range(data, last, data.len()));
    assert(files@.map_values(|f: Vec<u8>| f@) =~= files_at(data@, offs));
    files
}

impl Packed {
    /// Size in bytes of the counted archive that holds these files: a
    /// count, one offset per file, and the files.
    pub fn file_size(&self) -> (size: usize)
        requires
            self.files.len() * 4 + 4 + total_len(self@) <= usize::MAX,
        ensures
            size == self.files.len() * 4 + 4 + total_len(self@),
    {
        proof {
            lemma_total_len_nonneg(self@);
        }
        let header_length = self.files.len() * 4 + 4;
        let mut files_length: usize = 0;
        let mut i: usize = 0;
        while i < self.files.len()
            invariant
                i <= self.files.len(),
                self.files.len() * 4 + 4 + total_len(self@) <= usize::MAX,
                files_length == total_len(self@.take(i as int)),
            decreases self.files.len() - i,
        {
            proof {
                lemma_total_len_take_step(self@, i as int);
                lemma_total_len_take_le(self@, i as int + 1);
            }
            files_length = files_length + self.files[i].len();
            i += 1;
        }
        assert(self@.take(i as int) =~= self@);
        header_length + files_length
    }

    /// Reads a counted archive: a `u32` count, that many `u32` offsets, and
    /// the files; a file whose offset is not below the next one is empty.
    pub fn from_text(file: Vec<u8>) -> (packed: Packed)
        requires
            is_counted_archive(file@),
        ensures
            packed@ == files_at(file@, counted_offsets(file@)),
    {
        let length = read_u32(&file, 0);
        if length == 0 {
            let packed = Packed { files: Vec::new() };
            assert(packed@ =~= files_at(file@, counted_offsets(file@)));
            return packed;
        }
        let offsets = read_offsets(&file, length);
        assert(offsets@.map_values(|o: u32| o as int) =~= counted_offsets(file@));
        let files = files_from_offsets(&file, &offsets);
        Packed { files }
    }

    /// Reads an offset-table archive: the first word is the size of the
    /// table, and the offsets are read from the word after it on.
    pub fn from_offset_table(file: Vec<u8>) -> (packed: Packed)
        requires
            is_table_archive(file@),
        ensures
            packed@ == (if u32_at(file@, 0) == 0 {
                Seq::empty()
            } else {
                files_at(file@, table_offsets(file@))
            }),
    {
        let first_offset = read_u32(&file, 0);
        if first_offset == 0 {
            let packed = Packed { files: Vec::new() };
            assert(packed@ =~= Seq::<Seq<u8>>::empty());
            return packed;
        }
        let offsets = read_offsets(&file, first_offset / 4);
        assert(offsets@.map_values(|o: u32| o as int) =~= table_offsets(file@));
        let files = files_from_offsets(&file, &offsets);
        Packed { files }
    }

    /// Writes the counted archive that holds these files.
    pub fn to_bytes(&self) -> (bytes: Vec<u8>)
        requires
            self.files.len() * 4 + 4 + total_len(self@) <= u32::MAX,
        ensures
            bytes@ == counted_bytes(self@),
    {
        let ghost files = self@;
        proof {
            lemma_total_len_nonneg(files);
        }
        let n = self.files.len();
        let base: u32 = (n * 4) as u32 + 4;
        let mut result: Vec<u8> = Vec::new();
        write_u32(&mut result, n as u32);
        let mut i: usize = 0;
        let mut offset: u32 = base;
        while i < n
            invariant
                files == self@,
                n == self.files.len(),
                base == 4 * n + 4,
                n * 4 + 4 + total_len(files) <= u32::MAX,
                i <= n,
                offset == base + total_len(files.take(i as int)),
                result@ == le_bytes(n as int) + offset_words(files, base as int, i as int),
            decreases n - i,
        {
            proof {
                lemma_total_len_take_step(files, i as int);
                lemma_total_len_take_le(files, i as int + 1);
            }
            write_u32(&mut result, offset);
            offset = offset + self.files[i].len() as u32;
            i += 1;
            assert(result@ =~= le_bytes(n as int) + offset_words(files, base as int, i as int));
        }
        let mut k: usize = 0;
        let ghost header = result@;
        while k < n
            invariant
                files == self@,
                n == self.files.len(),
                k <= n,
                result@ == header + concat_all(files.take(k as int)),
            decreases n - k,
        {
            let ghost before = result@;
            let mut j: usize = 0;
            while j < self.files[k].len()
                invariant
                    k < n,
                    n == self.files.len(),
                    j <= self.files[k as int].len(),
                    result@ == before + self.files[k as int]@.take(j as int),
                decreases self.files[k as int].len() - j,
            {
                result.push(self.files[k][j]);
                j += 1;
                assert(result@ =~= before + self.files[k as int]@.take(j as int));
            }
            proof {
                assert(self.files[k as int]@.take(j as int) =~= files[k as int]);
                assert(files.take(k as int + 1).drop_last() =~= files.take(k as int));
            }
            k += 1;
            assert(result@ =~= header + concat_all(files.take(k as int)));
        }
        assert(files.take(n as int) =~= files);
        result
    }
}

/// One more file adds its length to the running total.
proof fn lemma_total_len_take_step(files: Seq<Seq<u8>>, i: int)
    requires
        0 <= i < files.len(),
    ensures
        total_len(files.take(i + 1)) == total_len(files.take(i)) + files[i].len(),
{
    assert(files.take(i + 1).drop_last() =~= files.take(i));
}

/// A prefix's total is bounded by the whole total.
proof fn lemma_total_len_take_le(files: Seq<Seq<u8>>, i: int)
    requires
        0 <= i <= files.len(),
    ensures
        0 <= total_len(files.take(i)) <= total_len(files),
    decreases files.len() - i,
{
    if i == files.len() {
        assert(files.take(i) =~= files);
        lemma_total_len_nonneg(files);
    } else {
        lemma_total_len_take_step(files, i);
        lemma_total_len_take_le(files, i + 1);
        lemma_total_len_nonneg(files.take(i));
    }
}

/// Totals are not negative.
proof fn lemma_total_len_nonneg(files: Seq<Seq<u8>>)
    ensures
        total_len(files) >= 0,
    decreases files.len(),
{
    if files.len() > 0 {
        lemma_total_len_nonneg(files.drop_last());
    }
}


/// Decoding the four little-endian bytes of a `u32` gives it back.
proof fn lemma_le_bytes_decode(v: u32)
    ensures
        le_bytes(v as int).len() == 4,
        u32_at(le_bytes(v as int), 0) == v,
{
    let b = le_bytes(v as int);
    assert(b[0] == v % 256);
    assert(b[1] == (v / 256) % 256);
    assert(b[2] == (v / 65536) % 256);
    assert(b[3] == (v / 16777216) % 256);
    assert((v % 256) + 256 * ((v / 256) % 256) + 65536 * ((v / 65536) % 256) + 16777216 * ((v
        / 16777216) % 256) == v) by (bit_vector);
}

/// The header words: four bytes per file, each the file's offset.
proof fn lemma_offset_words(files: Seq<Seq<u8>>, base: int, k: int, i: int)
    requires
        0 <= i < k <= files.len(),
        0 <= base,
        base + total_len(files) <= u32::MAX,
    ensures
        offset_words(files, base, k).len() == 4 * k,
        offset_words(files, base, k).subrange(4 * i, 4 * i + 4) == le_bytes(
            base + total_len(files.take(i)),
        ),
    decreases k,
{
    lemma_offset_words_len(files, base, k);
    lemma_offset_words_len(files, base, k - 1);
    if i < k - 1 {
        lemma_offset_words(files, base, k - 1, i);
        assert(offset_words(files, base, k).subrange(4 * i, 4 * i + 4) =~= offset_words(
            files,
            base,
            k - 1,
        ).subrange(4 * i, 4 * i + 4));
    } else {
        assert(offset_words(files, base, k).subrange(4 * i, 4 * i + 4) =~= le_bytes(
            base + total_len(files.take(i)),
        ));
    }
}

/// Four bytes per header word.
proof fn lemma_offset_words_len(files: Seq<Seq<u8>>, base: int, k: int)
    requires
        0 <= k,
    ensures
        offset_words(files, base, k).len() == 4 * k,
    decreases k,
{
    if k > 0 {
        lemma_offset_words_len(files, base, k - 1);
    }
}

/// Laid end to end, the files take their total length, and each file
/// stands between the running totals before and after it.
proof fn lemma_concat_all(files: Seq<Seq<u8>>, i: int)
    requires
        0 <= i < files.len(),
    ensures
        concat_all(files).len() == total_len(files),
        total_len(files.take(i + 1)) == total_len(files.take(i)) + files[i].len(),
        concat_all(files).subrange(total_len(files.take(i)), total_len(files.take(i + 1)))
            == files[i],
    decreases files.len(),
{
    lemma_total_len_take_step(files, i);
    lemma_concat_all_len(files);
    let init = files.drop_last();
    if i < files.len() - 1 {
        lemma_concat_all(init, i);
        lemma_concat_all_len(init);
        lemma_total_len_take_le(init, i);
        assert(init.take(i) =~= files.take(i));
        assert(init.take(i + 1) =~= files.take(i + 1));
        lemma_total_len_take_le(init, i + 1);
        assert(concat_all(files).subrange(total_len(files.take(i)), total_len(files.take(i + 1)))
            =~= concat_all(init).subrange(total_len(init.take(i)), total_len(init.take(i + 1))));
    } else {
        assert(files.take(i) =~= init);
        assert(files.take(i + 1) =~= files);
        lemma_concat_all_len(init);
        assert(concat_all(files).subrange(total_len(files.take(i)), total_len(files.take(i + 1)))
            =~= files[i]);
    }
}

/// Laid end to end, the files take their total length.
proof fn lemma_concat_all_len(files: Seq<Seq<u8>>)
    ensures
        concat_all(files).len() == total_len(files),
    decreases files.len(),
{
    if files.len() > 0 {
        lemma_concat_all_len(files.drop_last());
    }
}

/// A word reads the same from a sequence and from its four bytes.
proof fn lemma_u32_at_subrange(s: Seq<u8>, p: int)
    requires
        0 <= p,
        p + 4 <= s.len(),
    ensures
        u32_at(s, p) == u32_at(s.subrange(p, p + 4), 0),
{
}

/// The counted archive built from a list of files is as long as
/// `Packed::file_size` says.
pub proof fn lemma_counted_bytes_len(files: Seq<Seq<u8>>)
    ensures
        counted_bytes(files).len() == 4 * files.len() + 4 + total_len(files),
{
    lemma_offset_words_len(files, 4 * files.len() as int + 4, files.len() as int);
    lemma_concat_all_len(files);
}

/// The count word of a written counted archive.
proof fn lemma_counted_count(files: Seq<Seq<u8>>)
    requires
        4 * files.len() + 4 + total_len(files) <= u32::MAX,
    ensures
        u32_at(counted_bytes(files), 0) == files.len(),
        counted_bytes(files).len() == 4 * files.len() + 4 + total_len(files),
{
    let n = files.len() as int;
    let data = counted_bytes(files);
    lemma_counted_bytes_len(files);
    lemma_total_len_nonneg(files);
    lemma_le_bytes_decode(n as u32);
    assert(data.subrange(0, 4) =~= le_bytes(n));
    lemma_u32_at_subrange(data, 0);
}

/// The offset words of a written counted archive.
proof fn lemma_counted_offset(files: Seq<Seq<u8>>, i: int)
    requires
        4 * files.len() + 4 + total_len(files) <= u32::MAX,
        0 <= i < files.len(),
    ensures
        u32_at(counted_bytes(files), 4 + 4 * i) == 4 * files.len() + 4 + total_len(files.take(i)),
{
    let n = files.len() as int;
    let base = 4 * n + 4;
    let data = counted_bytes(files);
    let words = offset_words(files, base, n);
    lemma_total_len_nonneg(files);
    lemma_offset_words(files, base, n, i);
    lemma_total_len_take_le(files, i);
    assert(data.subrange(4 + 4 * i, 8 + 4 * i) =~= words.subrange(4 * i, 4 * i + 4));
    lemma_u32_at_subrange(data, 4 + 4 * i);
    lemma_le_bytes_decode((base + total_len(files.take(i))) as u32);
}

/// Each file of a written counted archive sits between its offsets.
proof fn lemma_counted_file(files: Seq<Seq<u8>>, i: int)
    requires
        4 * files.len() + 4 + total_len(files) <= u32::MAX,
        0 <= i < files.len(),
    ensures
        ({
            let base = 4 * files.len() + 4;
            counted_bytes(files).subrange(
                base + total_len(files.take(i)),
                base + total_len(files.take(i + 1)),
            ) == files[i]
        }),
{
    let n = files.len() as int;
    let base = 4 * n + 4;
    let data = counted_bytes(files);
    let body = concat_all(files);
    lemma_offset_words_len(files, base, n);
    lemma_concat_all(files, i);
    lemma_total_len_take_le(files, i);
    lemma_total_len_take_le(files, i + 1);
    assert(data.subrange(base + total_len(files.take(i)), base + total_len(files.take(i + 1)))
        =~= body.subrange(total_len(files.take(i)), total_len(files.take(i + 1))));
}

/// The offsets of a written counted archive are those of its files.
proof fn lemma_counted_offsets(files: Seq<Seq<u8>>)
    requires
        4 * files.len() + 4 + total_len(files) <= u32::MAX,
    ensures
        counted_offsets(counted_bytes(files)).len() == files.len(),
        forall|i: int|
            0 <= i < files.len() ==> #[trigger] counted_offsets(counted_bytes(files))[i] == 4 * files.len() + 4
                + total_len(files.take(i)),
        is_counted_archive(counted_bytes(files)),
{
    let n = files.len() as int;
    let base = 4 * n + 4;
    let data = counted_bytes(files);
    lemma_counted_count(files);
    let offs = counted_offsets(data);
    assert(offs.len() == n);
    assert forall|i: int| 0 <= i < n implies #[trigger] offs[i] == base + total_len(files.take(i)) by {
        lemma_counted_offset(files, i);
    }
    if n > 0 {
        assert forall|i: int| 0 <= i < offs.len() - 1 && #[trigger] offs[i] < offs[i + 1] implies offs[i + 1]
            <= data.len() by {
            lemma_total_len_take_le(files, i + 1);
        }
        lemma_total_len_take_le(files, n - 1);
        assert(offsets_fit(data, offs));
    }
}

/// File `i` that the written offsets delimit is file `i` of the list.
proof fn lemma_counted_file_at(files: Seq<Seq<u8>>, i: int)
    requires
        4 * files.len() + 4 + total_len(files) <= u32::MAX,
        0 <= i < files.len(),
    ensures
        files_at(counted_bytes(files), counted_offsets(counted_bytes(files)))[i] == files[i],
{
    let n = files.len() as int;
    let data = counted_bytes(files);
    lemma_counted_offsets(files);
    let offs = counted_offsets(data);
    lemma_counted_file(files, i);
    lemma_total_len_take_step(files, i);
    lemma_counted_bytes_len(files);
    if i + 1 < n {
        assert(offs[i + 1] == 4 * n + 4 + total_len(files.take(i + 1)));
        if offs[i] >= offs[i + 1] {
            assert(files[i] =~= Seq::<u8>::empty());
        }
    } else {
        assert(files.take(i + 1) =~= files);
    }
}

/// Reading back a written counted archive gives the same files: what
/// `Packed::to_bytes` writes, `Packed::from_text` accepts and reads as the
/// original list of files.
pub proof fn lemma_counted_archive_roundtrip(files: Seq<Seq<u8>>)
    requires
        4 * files.len() + 4 + total_len(files) <= u32::MAX,
    ensures
        is_counted_archive(counted_bytes(files)),
        files_at(counted_bytes(files), counted_offsets(counted_bytes(files))) == files,
{
    let data = counted_bytes(files);
    lemma_counted_offsets(files);
    let offs = counted_offsets(data);
    assert forall|i: int| 0 <= i < files.len() implies #[trigger] files_at(data, offs)[i] == files[i] by {
        lemma_counted_file_at(files, i);
    }
    assert(files_at(data, offs) =~= files);
}

} // verus!
