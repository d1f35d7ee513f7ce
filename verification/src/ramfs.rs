use vstd::prelude::*;
use vstd::string::StringSliceAdditionalSpecFns;
use vstd::utf8::valid_utf8;

use crate::boot_alloc::align_up_to;

verus! {

/// The bytes every file system image starts with: `LILITH!!`.
pub open spec fn magic() -> Seq<u8> {
    seq![0x4cu8, 0x49u8, 0x4cu8, 0x49u8, 0x54u8, 0x48u8, 0x21u8, 0x21u8]
}

/// The size of the image header: the magic bytes and the number of files.
pub const HEADER_SIZE: usize = 16;

/// The size of a table entry: the name, the offset, the size and reserved bytes.
pub const ENTRY_SIZE: usize = 64;

/// The longest file name, in bytes.
pub const NAME_LEN: usize = 32;

/// Files start on page boundaries.
pub const PAGE_SIZE: u64 = 4096;

/// The number a little-endian byte sequence stands for.
pub open spec fn le_value(s: Seq<u8>) -> int
    decreases s.len(),
{
    if s.len() == 0 {
        0
    } else {
        s[0] + 256 * le_value(s.drop_first())
    }
}

/// The `n` little-endian bytes of `v`.
pub open spec fn le_bytes(v: int, n: nat) -> Seq<u8>
    decreases n,
{
    if n == 0 {
        seq![]
    } else {
        seq![(v % 256) as u8] + le_bytes(v / 256, (n - 1) as nat)
    }
}

/// `n` zero bytes.
pub open spec fn zeros(n: int) -> Seq<u8> {
    Seq::new(if n > 0 { n as nat } else { 0 }, |i: int| 0u8)
}

/// The position of the first zero byte of `s` at or after `i`, or its length.
pub open spec fn first_zero(s: Seq<u8>, i: int) -> int
    decreases s.len() - i,
{
    if i < 0 || i >= s.len() {
        s.len() as int
    } else if s[i] == 0 {
        i
    } else {
        first_zero(s, i + 1)
    }
}

/// Where entry `i` of the table starts.
pub open spec fn entry_base(i: int) -> int {
    HEADER_SIZE + ENTRY_SIZE * i
}

/// The number of files an image holds.
pub open spec fn n_files(d: Seq<u8>) -> int {
    le_value(d.subrange(8, 16))
}

/// The name of entry `i`: its name field up to the first zero byte.
pub open spec fn entry_name(d: Seq<u8>, i: int) -> Seq<u8> {
    let field = d.subrange(entry_base(i), entry_base(i) + NAME_LEN);
    field.subrange(0, first_zero(field, 0))
}

/// Where the contents of entry `i` start.
pub open spec fn entry_offset(d: Seq<u8>, i: int) -> int {
    le_value(d.subrange(entry_base(i) + 32, entry_base(i) + 40))
}

/// The size of the contents of entry `i`.
pub open spec fn entry_size(d: Seq<u8>, i: int) -> int {
    le_value(d.subrange(entry_base(i) + 40, entry_base(i) + 48))
}

/// The image holds its header and the whole table.
pub open spec fn table_fits(d: Seq<u8>) -> bool {
    &&& d.len() >= HEADER_SIZE
    &&& entry_base(n_files(d)) <= d.len()
}

/// The first entry named `name`, if any, among the first `n` ones.
pub open spec fn find_entry(d: Seq<u8>, name: Seq<u8>, n: int) -> Option<int>
    decreases n,
{
    if n <= 0 {
        None
    } else {
        match find_entry(d, name, n - 1) {
            Some(i) => Some(i),
            None => if entry_name(d, n - 1) == name {
                Some(n - 1)
            } else {
                None
            },
        }
    }
}

/// Calls `std::str::from_utf8`: the bytes as text where they are valid UTF-8.
#[verifier::external_body]
fn utf8_str<'a>(bytes: &'a [u8]) -> (r: Option<&'a str>)
    ensures
        r is Some <==> valid_utf8(bytes@),
        r matches Some(s) ==> s.spec_bytes() == bytes@,
{
    std::str::from_utf8(bytes).ok()
}

/// Reads the little-endian number in the 8 bytes of `d` from `k` on.
fn read_u64_le(d: &[u8], k: usize) -> (r: u64)
    requires
        k + 8 <= d@.len(),
    ensures
        r == le_value(d@.subrange(k as int, k + 8)),
{
    let mut acc: u64 = 0;
    let mut j: usize = 8;
    proof {
        vstd::arithmetic::power2::lemma2_to64();
    }
    while j > 0
        invariant
            k + 8 <= d.len(),
            0 <= j <= 8,
            acc == le_value(d@.subrange(k + j, k + 8)),
            acc < vstd::arithmetic::power2::pow2((8 - j) as nat * 8),
        decreases j,
    {
        j = j - 1;
        let b = d[k + j];
        proof {
            let s = d@.subrange(k + j, k + 8);
            assert(s.drop_first() =~= d@.subrange(k + j + 1, k + 8));
            lemma_pow2_byte((8 - j - 1) as nat);
        }
        acc = acc * 256 + b as u64;
    }
    acc
}

proof fn lemma_pow2_byte(m: nat)
    requires
        m < 8,
    ensures
        vstd::arithmetic::power2::pow2((m + 1) * 8) == 256 * vstd::arithmetic::power2::pow2(m * 8),
        vstd::arithmetic::power2::pow2((m + 1) * 8) <= 0x1_0000_0000_0000_0000,
{
    vstd::arithmetic::power2::lemma2_to64();
    vstd::arithmetic::power2::lemma2_to64_rest();
    assert(m == 0 || m == 1 || m == 2 || m == 3 || m == 4 || m == 5 || m == 6 || m == 7);
}

/// A read-only file system: a table of named files followed by their contents.
pub struct RamFs<'a> {
    data: &'a [u8],
}

impl<'a> RamFs<'a> {
    pub closed spec fn data_view(&self) -> Seq<u8> {
        self.data@
    }

    /// The file system stored in `data`.
    pub fn new(data: &'a [u8]) -> (fs: RamFs<'a>)
        ensures
            fs.data_view() == data@,
    {
        RamFs { data }
    }

    fn n_files(&self) -> (n: u64)
        requires
            self.data@.len() >= HEADER_SIZE,
        ensures
            n == n_files(self.data@),
    {
        read_u64_le(self.data, 8)
    }

    /// The name bytes of entry `i`.
    fn entry_name_bytes(&self, i: usize) -> (r: &'a [u8])
        requires
            entry_base(i as int) + ENTRY_SIZE <= self.data.len(),
        ensures
            r@ == entry_name(self.data@, i as int),
    {
        let base = 16 + 64 * i;
        let ghost field = self.data@.subrange(base as int, base + 32);
        let mut len: usize = 0;
        while len < 32 && self.data[base + len] != 0
            invariant
                base == entry_base(i as int),
                base + 64 <= self.data.len(),
                field == self.data@.subrange(base as int, base + 32),
                0 <= len <= 32,
                forall|q: int| 0 <= q < len ==> #[trigger] field[q] != 0,
            decreases 32 - len,
        {
            assert(field[len as int] == self.data@[base + len]);
            len = len + 1;
        }
        proof {
            assert forall|q: int| 0 <= q <= len implies first_zero(field, q) == first_zero(field, len as int) by {
                lemma_first_zero_skip(field, q, len as int);
            }
            assert(first_zero(field, 0) == len);
            assert(field.subrange(0, len as int) =~= self.data@.subrange(base as int, base + len));
        }
        &self.data[base..base + len]
    }

    /// The names of the files, in table order.
    pub fn iter(&self) -> (names: Vec<&'a str>)
        requires
            table_fits(self.data_view()),
            forall|i: int| 0 <= i < n_files(self.data_view()) ==> valid_utf8(#[trigger] entry_name(self.data_view(), i)),
        ensures
            names@.len() == n_files(self.data_view()),
            forall|i: int| 0 <= i < names@.len() ==> (#[trigger] names@[i]).spec_bytes() == entry_name(self.data_view(), i),
    {
        let n = self.n_files();
        let mut names: Vec<&'a str> = Vec::new();
        let mut i: u64 = 0;
        while i < n
            invariant
                n == n_files(self.data@),
                table_fits(self.data@),
                forall|q: int| 0 <= q < n_files(self.data@) ==> valid_utf8(#[trigger] entry_name(self.data@, q)),
                0 <= i <= n,
                names@.len() == i,
                forall|q: int| 0 <= q < i ==> (#[trigger] names@[q]).spec_bytes() == entry_name(self.data@, q),
            decreases n - i,
        {
            proof {
                assert(entry_base(i as int) + ENTRY_SIZE <= entry_base(n as int));
                assert(self.data@.len() == self.data.len());
            }
            let bytes = self.entry_name_bytes(i as usize);
            proof {
                assert((i as usize) as int == i as int);
                assert(valid_utf8(entry_name(self.data@, i as int)));
            }
            let s = match utf8_str(bytes) {
                Some(s) => s,
                None => "",
            };
            let ghost names0 = names@;
            names.push(s);
            proof {
                assert forall|q: int| 0 <= q < i + 1 implies (#[trigger] names@[q]).spec_bytes() == entry_name(self.data@, q) by {
                    if q < i {
                        assert(names@[q] == names0[q]);
                    }
                }
            }
            i = i + 1;
        }
        names
    }

    /// The contents of the first file named `name`, if any.
    pub fn get(&self, name: &str) -> (r: Option<&'a [u8]>)
        requires
            table_fits(self.data_view()),
            ({
                let d = self.data_view();
                let n = n_files(d);
                match find_entry(d, name.spec_bytes(), n) {
                    Some(k) => entry_offset(d, k) + entry_size(d, k) <= d.len()
                        && forall|i: int| 0 <= i <= k ==> valid_utf8(#[trigger] entry_name(d, i)),
                    None => forall|i: int| 0 <= i < n ==> valid_utf8(#[trigger] entry_name(d, i)),
                }
            }),
        ensures
            ({
                let d = self.data_view();
                match find_entry(d, name.spec_bytes(), n_files(d)) {
                    Some(k) => r matches Some(s) && s@ == d.subrange(entry_offset(d, k), entry_offset(d, k) + entry_size(d, k)),
                    None => r is None,
                }
            }),
    {
        let n = self.n_files();
        let target = name.as_bytes();
        let mut i: u64 = 0;
        while i < n
            invariant
                n == n_files(self.data@),
                table_fits(self.data@),
                target@ == name.spec_bytes(),
                0 <= i <= n,
                find_entry(self.data@, target@, i as int) is None,
                match find_entry(self.data@, target@, n as int) {
                    Some(k) => entry_offset(self.data@, k) + entry_size(self.data@, k) <= self.data@.len(),
                    None => true,
                },
            decreases n - i,
        {
            proof {
                assert(entry_base(i as int) + ENTRY_SIZE <= entry_base(n as int));
                assert(self.data@.len() == self.data.len());
            }
            let bytes = self.entry_name_bytes(i as usize);
            proof {
                assert((i as usize) as int == i as int);
            }
            if bytes_equal(bytes, target) {
                let base = 16 + 64 * (i as usize);
                let offset = read_u64_le(self.data, base + 32);
                let size = read_u64_le(self.data, base + 40);
                proof {
                    assert(find_entry(self.data@, target@, i + 1) == Some(i as int));
                    lemma_find_entry_stable(self.data@, target@, i + 1, n as int);
                    assert(find_entry(self.data_view(), name.spec_bytes(), n_files(self.data_view())) == Some(i as int));
                    assert(offset == entry_offset(self.data@, i as int));
                    assert(size == entry_size(self.data@, i as int));
                    assert(entry_offset(self.data@, i as int) + entry_size(self.data@, i as int) <= self.data@.len());
                    assert(self.data@.len() == self.data.len());
                }
                return Some(&self.data[offset as usize..(offset + size) as usize]);
            }
            proof {
                assert(find_entry(self.data@, target@, i + 1) is None);
            }
            i = i + 1;
        }
        None
    }
}

/// Two byte strings are equal.
fn bytes_equal(a: &[u8], b: &[u8]) -> (r: bool)
    ensures
        r == (a@ == b@),
{
    if a.len() != b.len() {
        return false;
    }
    let mut i: usize = 0;
    while i < a.len()
        invariant
            a@.len() == b@.len(),
            0 <= i <= a@.len(),
            forall|q: int| 0 <= q < i ==> a@[q] == b@[q],
        decreases a@.len() - i,
    {
        if a[i] != b[i] {
            return false;
        }
        i = i + 1;
    }
    assert(a@ =~= b@);
    true
}

proof fn lemma_first_zero_skip(s: Seq<u8>, q: int, len: int)
    requires
        0 <= q <= len <= s.len(),
        forall|p: int| q <= p < len ==> s[p] != 0,
    ensures
        first_zero(s, q) == first_zero(s, len),
    decreases len - q,
{
    if q < len {
        lemma_first_zero_skip(s, q + 1, len);
    }
}

/// Once an entry is found among the first `m`, it stays the one found among more.
proof fn lemma_find_entry_stable(d: Seq<u8>, name: Seq<u8>, m: int, n: int)
    requires
        1 <= m <= n,
        find_entry(d, name, m) is Some,
    ensures
        find_entry(d, name, n) == find_entry(d, name, m),
    decreases n - m,
{
    if m < n {
        lemma_find_entry_stable(d, name, m, n - 1);
    }
}

/// Where the contents of the first file start: the first page after the table.
pub open spec fn data_start(n: int) -> int {
    align_up_to(HEADER_SIZE + ENTRY_SIZE * n, PAGE_SIZE as int)
}

/// Where the contents of file `i` start: each file starts on the first page after the one
/// before it.
pub open spec fn file_offset(datas: Seq<Seq<u8>>, i: int) -> int
    decreases i,
{
    if i <= 0 {
        data_start(datas.len() as int)
    } else {
        align_up_to(file_offset(datas, i - 1) + datas[i - 1].len(), PAGE_SIZE as int)
    }
}

/// The table entry of a file: its name padded with zero bytes, where its contents start,
/// their size, and reserved zero bytes.
pub open spec fn entry_bytes(name: Seq<u8>, offset: int, size: int) -> Seq<u8> {
    name + zeros(NAME_LEN - name.len()) + le_bytes(offset, 8) + le_bytes(size, 8) + zeros(16)
}

/// The first `k` entries of the table.
pub open spec fn table_upto(names: Seq<Seq<u8>>, datas: Seq<Seq<u8>>, k: int) -> Seq<u8>
    decreases k,
{
    if k <= 0 {
        seq![]
    } else {
        table_upto(names, datas, k - 1) + entry_bytes(names[k - 1], file_offset(datas, k - 1), datas[k - 1].len() as int)
    }
}

/// The contents of the first `k` files, each padded to a whole number of pages.
pub open spec fn body_upto(datas: Seq<Seq<u8>>, k: int) -> Seq<u8>
    decreases k,
{
    if k <= 0 {
        seq![]
    } else {
        body_upto(datas, k - 1) + datas[k - 1] + zeros(file_offset(datas, k) - file_offset(datas, k - 1) - datas[k - 1].len())
    }
}

/// The image of the files named `names` with contents `datas`: the header, the table, zero
/// bytes up to the first page after it, and the contents.
pub open spec fn image(names: Seq<Seq<u8>>, datas: Seq<Seq<u8>>) -> Seq<u8> {
    let n = names.len() as int;
    magic() + le_bytes(n, 8) + table_upto(names, datas, n) + zeros(data_start(n) - (HEADER_SIZE + ENTRY_SIZE * n))
        + body_upto(datas, n)
}

/// Why a file cannot go into an image.
#[derive(Clone, Copy, Debug, PartialEq, Eq, Structural)]
pub enum ImageError {
    NameTooLong,
    DuplicateName,
}

/// The files of an image being put together, in order.
pub struct ImageBuilder {
    names: Vec<Vec<u8>>,
    datas: Vec<Vec<u8>>,
}

impl ImageBuilder {
    pub closed spec fn names_view(&self) -> Seq<Seq<u8>> {
        Seq::new(self.names@.len(), |i: int| self.names@[i]@)
    }

    pub closed spec fn datas_view(&self) -> Seq<Seq<u8>> {
        Seq::new(self.datas@.len(), |i: int| self.datas@[i]@)
    }

    /// As many names as contents, every name fits its field, and no name occurs twice.
    pub open spec fn wf(&self) -> bool {
        &&& self.names_view().len() == self.datas_view().len()
        &&& forall|i: int| 0 <= i < self.names_view().len() ==> (#[trigger] self.names_view()[i]).len() <= NAME_LEN
        &&& forall|i: int, j: int| 0 <= i < j < self.names_view().len() ==> #[trigger] self.names_view()[i] != #[trigger] self.names_view()[j]
    }

    pub fn new() -> (b: ImageBuilder)
        ensures
            b.wf(),
            b.names_view().len() == 0,
    {
        let b = ImageBuilder { names: Vec::new(), datas: Vec::new() };
        assert(b.names_view() =~= Seq::<Seq<u8>>::empty());
        b
    }

    /// Adds a file: refused when its name is longer than a name field or already taken.
    pub fn add_file(&mut self, name: &str, data: Vec<u8>) -> (r: Result<(), ImageError>)
        requires
            old(self).wf(),
        ensures
            final(self).wf(),
            if name.spec_bytes().len() > NAME_LEN {
                r == Err::<(), ImageError>(ImageError::NameTooLong) && final(self).names_view() == old(self).names_view()
                    && final(self).datas_view() == old(self).datas_view()
            } else if old(self).names_view().contains(name.spec_bytes()) {
                r == Err::<(), ImageError>(ImageError::DuplicateName) && final(self).names_view() == old(self).names_view()
                    && final(self).datas_view() == old(self).datas_view()
            } else {
                r is Ok && final(self).names_view() == old(self).names_view().push(name.spec_bytes())
                    && final(self).datas_view() == old(self).datas_view().push(data@)
            },
    {
        let bytes = name.as_bytes();
        if bytes.len() > NAME_LEN {
            return Err(ImageError::NameTooLong);
        }
        let mut i: usize = 0;
        while i < self.names.len()
            invariant
                0 <= i <= self.names@.len(),
                bytes@ == name.spec_bytes(),
                self.names@ == old(self).names@,
                self.datas@ == old(self).datas@,
                old(self).wf(),
                forall|q: int| 0 <= q < i ==> self.names_view()[q] != bytes@,
            decreases self.names@.len() - i,
        {
            if bytes_equal(self.names[i].as_slice(), bytes) {
                proof {
                    assert(self.names_view()[i as int] == bytes@);
                    assert(old(self).names_view().contains(name.spec_bytes()));
                }
                return Err(ImageError::DuplicateName);
            }
            i = i + 1;
        }
        let ghost nv = self.names_view();
        let ghost dv = self.datas_view();
        let mut owned: Vec<u8> = Vec::new();
        let mut q: usize = 0;
        while q < bytes.len()
            invariant
                0 <= q <= bytes@.len(),
                owned@ == bytes@.subrange(0, q as int),
            decreases bytes@.len() - q,
        {
            owned.push(bytes[q]);
            q = q + 1;
            assert(owned@ =~= bytes@.subrange(0, q as int));
        }
        assert(owned@ =~= bytes@);
        self.names.push(owned);
        self.datas.push(data);
        proof {
            assert(!nv.contains(bytes@));
            assert(self.names_view() =~= nv.push(bytes@));
            assert(self.datas_view() =~= dv.push(data@));
        }
        Ok(())
    }
}

/// Appends the 8 little-endian bytes of `v`.
fn push_le(out: &mut Vec<u8>, v: u64)
    ensures
        final(out)@ == old(out)@ + le_bytes(v as int, 8),
{
    let ghost start = out@;
    let mut x = v;
    let mut k: usize = 0;
    while k < 8
        invariant
            0 <= k <= 8,
            start + le_bytes(v as int, 8) == out@ + le_bytes(x as int, (8 - k) as nat),
        decreases 8 - k,
    {
        proof {
            assert(le_bytes(x as int, (8 - k) as nat) =~= seq![(x % 256) as u8] + le_bytes((x / 256) as int, (8 - k - 1) as nat));
        }
        out.push((x % 256) as u8);
        x = x / 256;
        k = k + 1;
        proof {
            assert(out@ + le_bytes(x as int, (8 - k) as nat) =~= (out@.drop_last() + seq![out@.last()]) + le_bytes(x as int, (8 - k) as nat));
        }
    }
    proof {
        assert(le_bytes(x as int, 0) =~= Seq::<u8>::empty());
        assert(out@ + le_bytes(x as int, 0) =~= out@);
    }
}

/// Appends `count` zero bytes.
fn push_zeros(out: &mut Vec<u8>, count: usize)
    ensures
        final(out)@ == old(out)@ + zeros(count as int),
{
    let ghost start = out@;
    let mut k: usize = 0;
    while k < count
        invariant
            0 <= k <= count,
            out@ == start + zeros(k as int),
        decreases count - k,
    {
        out.push(0u8);
        k = k + 1;
        proof {
            assert(out@ =~= start + zeros(k as int));
        }
    }
}

/// Appends the bytes of `src`.
fn push_bytes(out: &mut Vec<u8>, src: &[u8])
    ensures
        final(out)@ == old(out)@ + src@,
{
    let ghost start = out@;
    let mut k: usize = 0;
    while k < src.len()
        invariant
            0 <= k <= src@.len(),
            out@ == start + src@.subrange(0, k as int),
        decreases src@.len() - k,
    {
        out.push(src[k]);
        k = k + 1;
        proof {
            assert(out@ =~= start + src@.subrange(0, k as int));
        }
    }
    proof {
        assert(src@.subrange(0, src@.len() as int) =~= src@);
    }
}

/// `x` rounded up to a whole number of pages, where that fits.
fn round_up_checked(x: u64) -> (r: Option<u64>)
    ensures
        r == if align_up_to(x as int, PAGE_SIZE as int) <= u64::MAX {
            Some(align_up_to(x as int, PAGE_SIZE as int) as u64)
        } else {
            None::<u64>
        },
{
    let rem = x % 4096;
    proof {
        assert(rem <= x) by (nonlinear_arith)
            requires
                rem == x % 4096,
        ;
    }
    if rem == 0 {
        Some(x)
    } else {
        (x - rem).checked_add(4096)
    }
}

/// `x` rounded up to a whole number of pages.
fn page_round_up(x: u64) -> (r: u64)
    requires
        align_up_to(x as int, PAGE_SIZE as int) <= u64::MAX,
    ensures
        r == align_up_to(x as int, PAGE_SIZE as int),
{
    let rem = x % 4096;
    proof {
        assert(rem <= x) by (nonlinear_arith)
            requires
                rem == x % 4096,
        ;
    }
    if rem == 0 {
        x
    } else {
        x - rem + 4096
    }
}

proof fn lemma_file_offset_step(datas: Seq<Seq<u8>>, i: int)
    requires
        0 <= i,
    ensures
        file_offset(datas, i) + datas[i].len() <= file_offset(datas, i + 1),
        file_offset(datas, i + 1) < file_offset(datas, i) + datas[i].len() + PAGE_SIZE,
{
}

proof fn lemma_file_offset_monotone(datas: Seq<Seq<u8>>, i: int, j: int)
    requires
        0 <= i <= j,
    ensures
        file_offset(datas, i) <= file_offset(datas, j),
    decreases j - i,
{
    if i < j {
        lemma_file_offset_monotone(datas, i, j - 1);
        lemma_file_offset_step(datas, j - 1);
    }
}

proof fn lemma_data_start(n: int)
    requires
        0 <= n,
    ensures
        HEADER_SIZE + ENTRY_SIZE * n <= data_start(n) < HEADER_SIZE + ENTRY_SIZE * n + PAGE_SIZE,
{
}

proof fn lemma_le_bytes_len(v: int, m: nat)
    ensures
        le_bytes(v, m).len() == m,
    decreases m,
{
    if m > 0 {
        lemma_le_bytes_len(v / 256, (m - 1) as nat);
    }
}

proof fn lemma_table_len(names: Seq<Seq<u8>>, datas: Seq<Seq<u8>>, k: int)
    requires
        0 <= k <= names.len(),
        forall|i: int| 0 <= i < names.len() ==> (#[trigger] names[i]).len() <= NAME_LEN,
    ensures
        table_upto(names, datas, k).len() == ENTRY_SIZE * k,
    decreases k,
{
    if k > 0 {
        lemma_table_len(names, datas, k - 1);
        lemma_le_bytes_len(file_offset(datas, k - 1), 8);
        lemma_le_bytes_len(datas[k - 1].len() as int, 8);
    }
}

proof fn lemma_body_len(datas: Seq<Seq<u8>>, k: int)
    requires
        0 <= k,
    ensures
        body_upto(datas, k).len() == file_offset(datas, k) - file_offset(datas, 0),
    decreases k,
{
    if k > 0 {
        lemma_body_len(datas, k - 1);
        lemma_file_offset_step(datas, k - 1);
    }
}

impl ImageBuilder {
    /// The size of the image of the files added so far, where it fits in memory.
    pub fn image_size(&self) -> (r: Option<u64>)
        requires
            self.wf(),
        ensures
            ({
                let total = file_offset(self.datas_view(), self.names_view().len() as int);
                r == if total <= u64::MAX && total <= usize::MAX { Some(total as u64) } else { None::<u64> }
            }),
    {
        let ghost datas = self.datas_view();
        let n = self.names.len();
        proof {
            lemma_data_start(n as int);
            lemma_file_offset_monotone(datas, 0, n as int);
        }
        let table_end: u64 = match (n as u64).checked_mul(64) {
            Some(t) => match t.checked_add(16) {
                Some(e) => e,
                None => {
                    return None;
                },
            },
            None => {
                return None;
            },
        };
        let mut off = match round_up_checked(table_end) {
            Some(o) => o,
            None => {
                return None;
            },
        };
        let mut i: usize = 0;
        while i < n
            invariant
                self.wf(),
                datas == self.datas_view(),
                n == self.names_view().len(),
                0 <= i <= n,
                off == file_offset(datas, i as int),
            decreases n - i,
        {
            let len = self.datas[i].len() as u64;
            proof {
                assert(len == datas[i as int].len());
                lemma_file_offset_step(datas, i as int);
                lemma_file_offset_monotone(datas, i + 1, n as int);
            }
            let end = match off.checked_add(len) {
                Some(e) => e,
                None => {
                    return None;
                },
            };
            off = match round_up_checked(end) {
                Some(o) => o,
                None => {
                    return None;
                },
            };
            i = i + 1;
        }
        if off as u128 > usize::MAX as u128 {
            return None;
        }
        Some(off)
    }

    /// The image of the files added so far.
    pub fn build(&self) -> (img: Vec<u8>)
        requires
            self.wf(),
            file_offset(self.datas_view(), self.names_view().len() as int) <= usize::MAX,
            file_offset(self.datas_view(), self.names_view().len() as int) <= u64::MAX,
        ensures
            img@ == image(self.names_view(), self.datas_view()),
    {
        let ghost names = self.names_view();
        let ghost datas = self.datas_view();
        let n = self.names.len();
        proof {
            lemma_data_start(n as int);
            lemma_file_offset_monotone(datas, 0, n as int);
        }
        let mut out: Vec<u8> = Vec::new();
        out.push(0x4c);
        out.push(0x49);
        out.push(0x4c);
        out.push(0x49);
        out.push(0x54);
        out.push(0x48);
        out.push(0x21);
        out.push(0x21);
        assert(out@ =~= magic());
        push_le(&mut out, n as u64);
        let ghost header = out@;
        let table_end: u64 = 16 + 64 * (n as u64);
        let start = page_round_up(table_end);
        let mut off: u64 = start;
        let mut i: usize = 0;
        while i < n
            invariant
                self.wf(),
                names == self.names_view(),
                datas == self.datas_view(),
                n == names.len(),
                file_offset(datas, n as int) <= usize::MAX,
                file_offset(datas, n as int) <= u64::MAX,
                0 <= i <= n,
                off == file_offset(datas, i as int),
                out@ == header + table_upto(names, datas, i as int),
            decreases n - i,
        {
            let name = self.names[i].as_slice();
            let len = self.datas[i].len() as u64;
            proof {
                assert(name@ == names[i as int]);
                assert(len == datas[i as int].len());
                lemma_file_offset_step(datas, i as int);
                lemma_file_offset_monotone(datas, i + 1, n as int);
            }
            let ghost before = out@;
            push_bytes(&mut out, name);
            push_zeros(&mut out, 32 - name.len());
            push_le(&mut out, off);
            push_le(&mut out, len);
            push_zeros(&mut out, 16);
            proof {
                assert(out@ =~= before + entry_bytes(names[i as int], file_offset(datas, i as int), datas[i as int].len() as int));
            }
            off = page_round_up(off + len);
            i = i + 1;
        }
        proof {
            lemma_table_len(names, datas, n as int);
        }
        push_zeros(&mut out, (start - table_end) as usize);
        let ghost prefix = out@;
        off = start;
        i = 0;
        while i < n
            invariant
                self.wf(),
                names == self.names_view(),
                datas == self.datas_view(),
                n == names.len(),
                file_offset(datas, n as int) <= usize::MAX,
                file_offset(datas, n as int) <= u64::MAX,
                0 <= i <= n,
                off == file_offset(datas, i as int),
                out@ == prefix + body_upto(datas, i as int),
            decreases n - i,
        {
            let data = self.datas[i].as_slice();
            let len = data.len() as u64;
            proof {
                assert(data@ == datas[i as int]);
                lemma_file_offset_step(datas, i as int);
                lemma_file_offset_monotone(datas, i + 1, n as int);
            }
            let ghost before = out@;
            push_bytes(&mut out, data);
            let next = page_round_up(off + len);
            push_zeros(&mut out, (next - off - len) as usize);
            proof {
                assert(out@ =~= before + (datas[i as int] + zeros(file_offset(datas, i + 1) - file_offset(datas, i as int) - datas[i as int].len())));
            }
            off = next;
            i = i + 1;
        }
        proof {
            assert(out@ =~= image(names, datas));
        }
        out
    }
}

/// `256^m`.
pub open spec fn pow256(m: nat) -> int
    decreases m,
{
    if m == 0 {
        1
    } else {
        256 * pow256((m - 1) as nat)
    }
}

/// Reading back the little-endian bytes of a number that fits gives the number.
proof fn lemma_le_round_trip(v: int, m: nat)
    requires
        0 <= v < pow256(m),
    ensures
        le_value(le_bytes(v, m)) == v,
    decreases m,
{
    if m > 0 {
        let rest = le_bytes(v / 256, (m - 1) as nat);
        assert(v / 256 < pow256((m - 1) as nat));
        lemma_le_round_trip(v / 256, (m - 1) as nat);
        assert((seq![(v % 256) as u8] + rest).drop_first() =~= rest);
    }
}

proof fn lemma_sub_right(x: Seq<u8>, y: Seq<u8>, i: int, j: int)
    requires
        x.len() <= i <= j <= x.len() + y.len(),
    ensures
        (x + y).subrange(i, j) == y.subrange(i - x.len(), j - x.len()),
{
    assert((x + y).subrange(i, j) =~= y.subrange(i - x.len(), j - x.len()));
}

proof fn lemma_sub_left(x: Seq<u8>, y: Seq<u8>, i: int, j: int)
    requires
        0 <= i <= j <= x.len(),
    ensures
        (x + y).subrange(i, j) == x.subrange(i, j),
{
    assert((x + y).subrange(i, j) =~= x.subrange(i, j));
}

/// Entry `k` of the table sits `ENTRY_SIZE * k` bytes into it.
proof fn lemma_table_entry(names: Seq<Seq<u8>>, datas: Seq<Seq<u8>>, n: int, k: int)
    requires
        0 <= k < n <= names.len(),
        forall|i: int| 0 <= i < names.len() ==> (#[trigger] names[i]).len() <= NAME_LEN,
    ensures
        table_upto(names, datas, n).subrange(ENTRY_SIZE * k, ENTRY_SIZE * k + ENTRY_SIZE)
            == entry_bytes(names[k], file_offset(datas, k), datas[k].len() as int),
    decreases n,
{
    lemma_table_len(names, datas, n - 1);
    let e = entry_bytes(names[n - 1], file_offset(datas, n - 1), datas[n - 1].len() as int);
    lemma_le_bytes_len(file_offset(datas, n - 1), 8);
    lemma_le_bytes_len(datas[n - 1].len() as int, 8);
    assert(e.len() == ENTRY_SIZE);
    if k == n - 1 {
        lemma_sub_right(table_upto(names, datas, n - 1), e, ENTRY_SIZE * k, ENTRY_SIZE * k + ENTRY_SIZE);
        assert(e.subrange(0, ENTRY_SIZE as int) =~= e);
    } else {
        lemma_table_entry(names, datas, n - 1, k);
        lemma_sub_left(table_upto(names, datas, n - 1), e, ENTRY_SIZE * k, ENTRY_SIZE * k + ENTRY_SIZE);
    }
}

/// The contents of file `k` sit where its offset says, counted from the first file.
proof fn lemma_body_file(datas: Seq<Seq<u8>>, n: int, k: int)
    requires
        0 <= k < n,
    ensures
        body_upto(datas, n).subrange(file_offset(datas, k) - file_offset(datas, 0),
            file_offset(datas, k) - file_offset(datas, 0) + datas[k].len()) == datas[k],
    decreases n,
{
    lemma_body_len(datas, n - 1);
    lemma_file_offset_step(datas, n - 1);
    let tail = datas[n - 1] + zeros(file_offset(datas, n) - file_offset(datas, n - 1) - datas[n - 1].len());
    assert(body_upto(datas, n) == body_upto(datas, n - 1) + tail);
    if k == n - 1 {
        lemma_sub_right(body_upto(datas, n - 1), tail, file_offset(datas, k) - file_offset(datas, 0),
            file_offset(datas, k) - file_offset(datas, 0) + datas[k].len());
        lemma_sub_left(datas[n - 1], zeros(file_offset(datas, n) - file_offset(datas, n - 1) - datas[n - 1].len()), 0,
            datas[k].len() as int);
        assert(datas[k].subrange(0, datas[k].len() as int) =~= datas[k]);
    } else {
        lemma_body_file(datas, n - 1, k);
        lemma_file_offset_step(datas, k);
        lemma_file_offset_monotone(datas, k + 1, n - 1);
        lemma_file_offset_monotone(datas, 0, k);
        lemma_sub_left(body_upto(datas, n - 1), tail, file_offset(datas, k) - file_offset(datas, 0),
            file_offset(datas, k) - file_offset(datas, 0) + datas[k].len());
    }
}

/// A name free of zero bytes, padded with zero bytes, reads back as itself.
proof fn lemma_name_field(name: Seq<u8>)
    requires
        name.len() <= NAME_LEN,
        !name.contains(0u8),
    ensures
        ({
            let field = name + zeros(NAME_LEN - name.len());
            field.subrange(0, first_zero(field, 0)) == name
        }),
{
    let field = name + zeros(NAME_LEN - name.len());
    assert forall|q: int| 0 <= q < name.len() implies field[q] != 0 by {
        assert(field[q] == name[q]);
        if name[q] == 0 {
            assert(name.contains(0u8));
        }
    }
    lemma_first_zero_skip(field, 0, name.len() as int);
    assert(field.subrange(0, name.len() as int) =~= name);
}

/// Among entries whose names are `names`, all distinct, name `names[k]` is first found at `k`.
proof fn lemma_find_distinct(d: Seq<u8>, names: Seq<Seq<u8>>, k: int, m: int)
    requires
        0 <= k < names.len(),
        0 <= m <= names.len(),
        forall|i: int| 0 <= i < names.len() ==> entry_name(d, i) == #[trigger] names[i],
        forall|i: int, j: int| 0 <= i < j < names.len() ==> #[trigger] names[i] != #[trigger] names[j],
    ensures
        find_entry(d, names[k], m) == if m > k { Some(k) } else { None::<int> },
    decreases m,
{
    if m > 0 {
        lemma_find_distinct(d, names, k, m - 1);
        if m - 1 != k {
            assert(entry_name(d, m - 1) == names[m - 1]);
        }
    }
}

/// An image built from files whose names are distinct, fit their fields and hold no zero byte
/// has a table that fits, counts the files and lists each name at its position.
pub proof fn lemma_image_table(names: Seq<Seq<u8>>, datas: Seq<Seq<u8>>)
    requires
        names.len() == datas.len(),
        forall|i: int| 0 <= i < names.len() ==> (#[trigger] names[i]).len() <= NAME_LEN && !names[i].contains(0u8),
        forall|i: int, j: int| 0 <= i < j < names.len() ==> #[trigger] names[i] != #[trigger] names[j],
        file_offset(datas, names.len() as int) <= u64::MAX,
    ensures
        ({
            let d = image(names, datas);
            &&& table_fits(d)
            &&& n_files(d) == names.len()
            &&& d.len() == file_offset(datas, names.len() as int)
            &&& forall|i: int| 0 <= i < names.len() ==> entry_name(d, i) == #[trigger] names[i]
            &&& forall|i: int| 0 <= i < names.len() ==> #[trigger] d.subrange(entry_base(i), entry_base(i) + ENTRY_SIZE)
                == entry_bytes(names[i], file_offset(datas, i), datas[i].len() as int)
        }),
{
    let n = names.len() as int;
    let d = image(names, datas);
    assert(pow256(8) == 0x1_0000_0000_0000_0000) by {
        reveal_with_fuel(pow256, 9);
    }
    lemma_data_start(n);
    lemma_file_offset_monotone(datas, 0, n);
    lemma_le_bytes_len(n, 8);
    lemma_table_len(names, datas, n);
    lemma_body_len(datas, n);
    let a = magic() + le_bytes(n, 8);
    let t = table_upto(names, datas, n);
    let z = zeros(data_start(n) - (HEADER_SIZE + ENTRY_SIZE * n));
    let b = body_upto(datas, n);
    assert(d == a + t + z + b);
    assert(a.len() == HEADER_SIZE);
    assert(d.len() == file_offset(datas, n));
    // the number of files
    lemma_sub_left(a + t + z, b, 8, 16);
    lemma_sub_left(a + t, z, 8, 16);
    lemma_sub_left(a, t, 8, 16);
    lemma_sub_right(magic(), le_bytes(n, 8), 8, 16);
    assert(le_bytes(n, 8).subrange(0, 8) =~= le_bytes(n, 8));
    lemma_le_round_trip(n, 8);
    assert(n_files(d) == n);
    // every table entry
    assert forall|i: int| 0 <= i < n implies d.subrange(entry_base(i), entry_base(i) + ENTRY_SIZE)
        == entry_bytes(names[i], file_offset(datas, i), datas[i].len() as int) by {
        lemma_sub_left(a + t + z, b, entry_base(i), entry_base(i) + ENTRY_SIZE);
        lemma_sub_left(a + t, z, entry_base(i), entry_base(i) + ENTRY_SIZE);
        lemma_sub_right(a, t, entry_base(i), entry_base(i) + ENTRY_SIZE);
        lemma_table_entry(names, datas, n, i);
    }
    assert forall|i: int| 0 <= i < n implies entry_name(d, i) == #[trigger] names[i] by {
        let e = entry_bytes(names[i], file_offset(datas, i), datas[i].len() as int);
        let field = names[i] + zeros(NAME_LEN - names[i].len());
        lemma_le_bytes_len(file_offset(datas, i), 8);
        lemma_le_bytes_len(datas[i].len() as int, 8);
        assert(d.subrange(entry_base(i), entry_base(i) + NAME_LEN) =~= e.subrange(0, NAME_LEN as int));
        assert(e.subrange(0, NAME_LEN as int) =~= field);
        lemma_name_field(names[i]);
    }
}

/// An image built from files whose names are distinct, fit their fields and hold no zero byte
/// gives every file back: the table counts them, lists each name at its position, and looking
/// a name up finds that file's contents.
pub proof fn lemma_image_round_trip(names: Seq<Seq<u8>>, datas: Seq<Seq<u8>>, k: int)
    requires
        names.len() == datas.len(),
        forall|i: int| 0 <= i < names.len() ==> (#[trigger] names[i]).len() <= NAME_LEN && !names[i].contains(0u8),
        forall|i: int, j: int| 0 <= i < j < names.len() ==> #[trigger] names[i] != #[trigger] names[j],
        file_offset(datas, names.len() as int) <= u64::MAX,
        0 <= k < names.len(),
    ensures
        ({
            let d = image(names, datas);
            &&& table_fits(d)
            &&& n_files(d) == names.len()
            &&& entry_name(d, k) == names[k]
            &&& find_entry(d, names[k], n_files(d)) == Some(k)
            &&& entry_offset(d, k) == file_offset(datas, k)
            &&& entry_size(d, k) == datas[k].len()
            &&& entry_offset(d, k) + entry_size(d, k) <= d.len()
            &&& d.subrange(entry_offset(d, k), entry_offset(d, k) + entry_size(d, k)) == datas[k]
        }),
{
    let n = names.len() as int;
    let d = image(names, datas);
    assert(pow256(8) == 0x1_0000_0000_0000_0000) by {
        reveal_with_fuel(pow256, 9);
    }
    lemma_data_start(n);
    lemma_file_offset_monotone(datas, 0, n);
    lemma_le_bytes_len(n, 8);
    lemma_table_len(names, datas, n);
    lemma_body_len(datas, n);
    let a = magic() + le_bytes(n, 8);
    let t = table_upto(names, datas, n);
    let z = zeros(data_start(n) - (HEADER_SIZE + ENTRY_SIZE * n));
    let b = body_upto(datas, n);
    assert(d == a + t + z + b);
    assert(a.len() == HEADER_SIZE);
    assert(d.len() == file_offset(datas, n));
    // the number of files
    lemma_sub_left(a + t + z, b, 8, 16);
    lemma_sub_left(a + t, z, 8, 16);
    lemma_sub_left(a, t, 8, 16);
    lemma_sub_right(magic(), le_bytes(n, 8), 8, 16);
    assert(le_bytes(n, 8).subrange(0, 8) =~= le_bytes(n, 8));
    lemma_le_round_trip(n, 8);
    assert(n_files(d) == n);
    // every table entry
    assert forall|i: int| 0 <= i < n implies d.subrange(entry_base(i), entry_base(i) + ENTRY_SIZE)
        == entry_bytes(names[i], file_offset(datas, i), datas[i].len() as int) by {
        lemma_sub_left(a + t + z, b, entry_base(i), entry_base(i) + ENTRY_SIZE);
        lemma_sub_left(a + t, z, entry_base(i), entry_base(i) + ENTRY_SIZE);
        lemma_sub_right(a, t, entry_base(i), entry_base(i) + ENTRY_SIZE);
        lemma_table_entry(names, datas, n, i);
    }
    assert forall|i: int| 0 <= i < n implies entry_name(d, i) == #[trigger] names[i] by {
        let e = entry_bytes(names[i], file_offset(datas, i), datas[i].len() as int);
        let field = names[i] + zeros(NAME_LEN - names[i].len());
        lemma_le_bytes_len(file_offset(datas, i), 8);
        lemma_le_bytes_len(datas[i].len() as int, 8);
        assert(d.subrange(entry_base(i), entry_base(i) + NAME_LEN) =~= e.subrange(0, NAME_LEN as int));
        assert(e.subrange(0, NAME_LEN as int) =~= field);
        lemma_name_field(names[i]);
    }
    lemma_find_distinct(d, names, k, n);
    // the offset and size of entry k
    let e = entry_bytes(names[k], file_offset(datas, k), datas[k].len() as int);
    lemma_le_bytes_len(file_offset(datas, k), 8);
    lemma_le_bytes_len(datas[k].len() as int, 8);
    assert(d.subrange(entry_base(k) + 32, entry_base(k) + 40) =~= e.subrange(32, 40));
    assert(e.subrange(32, 40) =~= le_bytes(file_offset(datas, k), 8));
    lemma_file_offset_monotone(datas, k, n);
    lemma_file_offset_monotone(datas, 0, k);
    lemma_le_round_trip(file_offset(datas, k), 8);
    assert(d.subrange(entry_base(k) + 40, entry_base(k) + 48) =~= e.subrange(40, 48));
    assert(e.subrange(40, 48) =~= le_bytes(datas[k].len() as int, 8));
    lemma_file_offset_step(datas, k);
    lemma_file_offset_monotone(datas, k + 1, n);
    lemma_le_round_trip(datas[k].len() as int, 8);
    // the contents of file k
    let lo = file_offset(datas, k);
    let hi = lo + datas[k].len();
    lemma_sub_right(a + t + z, b, lo, hi);
    lemma_body_file(datas, n, k);
}


/// No entry among the first `n` is named `name` where none of their names is `name`.
proof fn lemma_find_entry_none(d: Seq<u8>, name: Seq<u8>, n: int)
    requires
        forall|i: int| 0 <= i < n ==> #[trigger] entry_name(d, i) != name,
    ensures
        find_entry(d, name, n) is None,
    decreases n,
{
    if n > 0 {
        lemma_find_entry_none(d, name, n - 1);
    }
}

/// In an image built from files whose names are distinct, fit their fields and hold no zero
/// byte, looking up a name that none of the files has finds nothing.
pub proof fn lemma_image_missing_name(names: Seq<Seq<u8>>, datas: Seq<Seq<u8>>, name: Seq<u8>)
    requires
        names.len() == datas.len(),
        forall|i: int| 0 <= i < names.len() ==> (#[trigger] names[i]).len() <= NAME_LEN && !names[i].contains(0u8),
        forall|i: int, j: int| 0 <= i < j < names.len() ==> #[trigger] names[i] != #[trigger] names[j],
        file_offset(datas, names.len() as int) <= u64::MAX,
        forall|i: int| 0 <= i < names.len() ==> #[trigger] names[i] != name,
    ensures
        table_fits(image(names, datas)),
        find_entry(image(names, datas), name, n_files(image(names, datas))) is None,
{
    let d = image(names, datas);
    lemma_image_table(names, datas);
    assert forall|i: int| 0 <= i < n_files(d) implies #[trigger] entry_name(d, i) != name by {
        assert(entry_name(d, i) == names[i]);
    }
    lemma_find_entry_none(d, name, n_files(d));
}

} // verus!
