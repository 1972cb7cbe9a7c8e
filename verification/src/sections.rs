//! Files made of 64-byte-aligned sections.
use vstd::prelude::*;

verus! {

/// The least multiple of `align` that is not below `value`.
pub open spec fn aligned(value: int, align: int) -> int {
    (value + (align - 1)) / align * align
}

/// The least multiple of `align` that is not below `value`.
pub fn align_up(value: usize, align: usize) -> (r: usize)
    requires
        0 < align,
        value + align - 1 <= usize::MAX,
    ensures
        r == aligned(value as int, align as int),
        value <= r < value + align,
        r % align == 0,
{
    proof {
        lemma_aligned(value as int, align as int);
    }
    (value + (align - 1)) / align * align
}

/// An aligned value is a multiple of the alignment and less than one
/// alignment above the value.
pub proof fn lemma_aligned(value: int, align: int)
    requires
        0 < align,
    ensures
        value <= aligned(value, align) < value + align,
        aligned(value, align) % align == 0,
{
    let q = (value + align - 1) / align;
    assert(value <= q * align < value + align) by (nonlinear_arith)
        requires
            q == (value + align - 1) / align,
            0 < align,
    ;
    assert((q * align) % align == 0) by (nonlinear_arith)
        requires
            0 < align,
    ;
}

/// `n` zero bytes.
pub open spec fn zeros(n: int) -> Seq<u8> {
    Seq::new(n as nat, |i: int| 0u8)
}

/// `s` followed by zero bytes up to the alignment.
pub open spec fn padded(s: Seq<u8>, align: int) -> Seq<u8> {
    s + zeros(aligned(s.len() as int, align) - s.len())
}

/// Sections one after the other, each padded to `align`.
pub open spec fn image_by(sections: Seq<Seq<u8>>, align: int) -> Seq<u8>
    decreases sections.len(),
{
    if sections.len() == 0 {
        Seq::empty()
    } else {
        image_by(sections.drop_last(), align) + padded(sections.last(), align)
    }
}

/// The file that holds the sections one after the other.
pub open spec fn image(sections: Seq<Seq<u8>>) -> Seq<u8> {
    image_by(sections, 64)
}

/// The lengths of the sections.
pub open spec fn lens_of(sections: Seq<Seq<u8>>) -> Seq<int> {
    Seq::new(sections.len(), |k: int| sections[k].len() as int)
}

/// Where section `k` starts when each is padded to `align`.
pub open spec fn start_by(lens: Seq<int>, align: int, k: int) -> int
    decreases k,
{
    if k <= 0 {
        0
    } else {
        start_by(lens, align, k - 1) + aligned(lens[k - 1], align)
    }
}

/// Where section `k` of a file starts.
pub open spec fn section_start(lens: Seq<int>, k: int) -> int {
    start_by(lens, 64, k)
}

/// The start of a section depends on the sections before it only.
pub proof fn lemma_start_prefix(a: Seq<int>, b: Seq<int>, align: int, k: int)
    requires
        k <= a.len(),
        k <= b.len(),
        forall|i: int| 0 <= i < k ==> a[i] == b[i],
    ensures
        start_by(a, align, k) == start_by(b, align, k),
    decreases k,
{
    if k > 0 {
        lemma_start_prefix(a, b, align, k - 1);
    }
}

/// The sections stand where their lengths put them.
pub proof fn lemma_image_by(sections: Seq<Seq<u8>>, align: int)
    requires
        0 < align,
    ensures
        image_by(sections, align).len() == start_by(lens_of(sections), align, sections.len() as int),
        forall|k: int|
            0 <= k < sections.len() ==> {
                &&& 0 <= #[trigger] start_by(lens_of(sections), align, k)
                &&& start_by(lens_of(sections), align, k) + sections[k].len() <= image_by(
                    sections,
                    align,
                ).len()
                &&& image_by(sections, align).subrange(
                    start_by(lens_of(sections), align, k),
                    start_by(lens_of(sections), align, k) + sections[k].len(),
                ) == sections[k]
            },
    decreases sections.len(),
{
    if sections.len() > 0 {
        let init = sections.drop_last();
        let n = sections.len() - 1;
        let lens = lens_of(sections);
        let all = image_by(sections, align);
        lemma_image_by(init, align);
        lemma_aligned(sections.last().len() as int, align);
        lemma_start_prefix(lens_of(init), lens, align, n);
        assert forall|k: int| 0 <= k < sections.len() implies {
            &&& 0 <= #[trigger] start_by(lens, align, k)
            &&& start_by(lens, align, k) + sections[k].len() <= all.len()
            &&& all.subrange(start_by(lens, align, k), start_by(lens, align, k) + sections[k].len())
                == sections[k]
        } by {
            let at = start_by(lens, align, k);
            lemma_start_prefix(lens_of(init), lens, align, k);
            if k < n {
                assert(init[k] == sections[k]);
                assert(start_by(lens_of(init), align, k) == at);
                assert(all.subrange(at, at + sections[k].len()) =~= image_by(init, align).subrange(
                    at,
                    at + sections[k].len(),
                ));
            } else {
                assert(all.subrange(at, at + sections[k].len()) =~= sections[k]);
            }
        }
    }
}

/// The file is as long as its layout says, and every section stands where its
/// layout says.
pub proof fn lemma_image(sections: Seq<Seq<u8>>)
    ensures
        image(sections).len() == section_start(lens_of(sections), sections.len() as int),
        forall|k: int|
            0 <= k < sections.len() ==> {
                &&& 0 <= #[trigger] section_start(lens_of(sections), k)
                &&& section_start(lens_of(sections), k) + sections[k].len() <= image(sections).len()
                &&& image(sections).subrange(
                    section_start(lens_of(sections), k),
                    section_start(lens_of(sections), k) + sections[k].len(),
                ) == sections[k]
            },
{
    lemma_image_by(sections, 64);
}

/// Padded sections are aligned, in order, and do not overlap.
pub proof fn lemma_starts_are_disjoint(lens: Seq<int>, align: int, j: int, k: int)
    requires
        0 < align,
        0 <= j < k <= lens.len(),
        forall|i: int| 0 <= i < lens.len() ==> 0 <= #[trigger] lens[i],
    ensures
        start_by(lens, align, j) % align == 0,
        start_by(lens, align, k) % align == 0,
        0 <= start_by(lens, align, j),
        start_by(lens, align, j) + lens[j] <= start_by(lens, align, k),
    decreases k,
{
    lemma_aligned(lens[k - 1], align);
    assert(0 <= lens[j] && 0 <= lens[k - 1]);
    lemma_start_aligned(lens, align, j);
    lemma_start_aligned(lens, align, k);
    if j < k - 1 {
        lemma_starts_are_disjoint(lens, align, j, k - 1);
    }
}

/// Sections are aligned, in order, and do not overlap.
pub proof fn law_sections_are_disjoint(lens: Seq<int>, j: int, k: int)
    requires
        0 <= j < k <= lens.len(),
        forall|i: int| 0 <= i < lens.len() ==> 0 <= #[trigger] lens[i],
    ensures
        section_start(lens, j) % 64 == 0,
        section_start(lens, k) % 64 == 0,
        0 <= section_start(lens, j),
        section_start(lens, j) + lens[j] <= section_start(lens, k),
{
    lemma_starts_are_disjoint(lens, 64, j, k);
}

/// Every section lies inside the file.
pub proof fn lemma_sections_within(lens: Seq<int>)
    requires
        forall|i: int| 0 <= i < lens.len() ==> 0 <= #[trigger] lens[i],
    ensures
        forall|k: int|
            0 <= k < lens.len() ==> 0 <= #[trigger] section_start(lens, k) && section_start(lens, k)
                + lens[k] <= section_start(lens, lens.len() as int),
{
    assert forall|k: int| 0 <= k < lens.len() implies 0 <= #[trigger] section_start(lens, k)
        && section_start(lens, k) + lens[k] <= section_start(lens, lens.len() as int) by {
        law_sections_are_disjoint(lens, k, lens.len() as int);
    }
}

proof fn lemma_start_aligned(lens: Seq<int>, align: int, k: int)
    requires
        0 < align,
        0 <= k <= lens.len(),
        forall|i: int| 0 <= i < lens.len() ==> 0 <= #[trigger] lens[i],
    ensures
        start_by(lens, align, k) % align == 0,
        0 <= start_by(lens, align, k),
    decreases k,
{
    if k > 0 {
        assert(0 <= lens[k - 1]);
        lemma_start_aligned(lens, align, k - 1);
        lemma_aligned(lens[k - 1], align);
        lemma_multiples_add(start_by(lens, align, k - 1), aligned(lens[k - 1], align), align);
    } else {
        assert(0int % align == 0) by (nonlinear_arith)
            requires
                0 < align,
        ;
    }
}

/// Sums of multiples are multiples.
proof fn lemma_multiples_add(a: int, b: int, m: int)
    requires
        0 < m,
        a % m == 0,
        b % m == 0,
    ensures
        (a + b) % m == 0,
{
    vstd::arithmetic::div_mod::lemma_add_mod_noop(a, b, m);
    vstd::arithmetic::div_mod::lemma_small_mod(0, m as nat);
}

/// Between a value and its aligned value there is no other multiple.
pub proof fn lemma_aligned_least(value: int, align: int, m: int)
    requires
        0 < align,
        value <= m <= aligned(value, align),
        m % align == 0,
    ensures
        m == aligned(value, align),
{
    lemma_aligned(value, align);
    let a = aligned(value, align);
    if m < a {
        let p = m / align;
        let q = a / align;
        assert(m == p * align && a == q * align) by (nonlinear_arith)
            requires
                p == m / align,
                q == a / align,
                m % align == 0,
                a % align == 0,
                0 < align,
        ;
        assert(q >= p + 1) by (nonlinear_arith)
            requires
                p * align < q * align,
                0 < align,
        ;
        assert(a >= m + align) by (nonlinear_arith)
            requires
                q >= p + 1,
                m == p * align,
                a == q * align,
                0 < align,
        ;
    }
}

/// Appends zero bytes up to the alignment.
pub fn pad_to(out: &mut Vec<u8>, align: usize)
    requires
        0 < align,
    ensures
        final(out)@ == old(out)@ + zeros(aligned(old(out).len() as int, align as int) - old(out).len()),
{
    let ghost start = out@;
    let ghost target = aligned(start.len() as int, align as int);
    proof {
        lemma_aligned(start.len() as int, align as int);
    }
    assert(out@ =~= start + zeros(0));
    while out.len() % align != 0
        invariant
            0 < align,
            target == aligned(start.len() as int, align as int),
            target % (align as int) == 0,
            start.len() <= out.len() <= target,
            out@ == start + zeros(out.len() - start.len()),
        decreases target - out.len(),
    {
        out.push(0);
        assert(out@ =~= start + zeros(out.len() - start.len()));
    }
    proof {
        lemma_aligned_least(start.len() as int, align as int, out.len() as int);
    }
}

/// Moving by a multiple of the alignment does not change the padding.
pub proof fn lemma_aligned_shift(base: int, len: int, align: int)
    requires
        0 < align,
        base % align == 0,
    ensures
        aligned(base + len, align) == base + aligned(len, align),
{
    let m = base + aligned(len, align);
    let a = aligned(base + len, align);
    lemma_aligned(len, align);
    lemma_aligned(base + len, align);
    lemma_multiples_add(base, aligned(len, align), align);
    if m <= a {
        lemma_aligned_least(base + len, align, m);
    } else {
        let p = a / align;
        let q = m / align;
        assert(a == p * align && m == q * align) by (nonlinear_arith)
            requires
                p == a / align,
                q == m / align,
                a % align == 0,
                m % align == 0,
                0 < align,
        ;
        assert(q >= p + 1) by (nonlinear_arith)
            requires
                p * align < q * align,
                0 < align,
        ;
        assert(m >= a + align) by (nonlinear_arith)
            requires
                q >= p + 1,
                a == p * align,
                m == q * align,
                0 < align,
        ;
    }
}

/// Every section ends on the alignment.
proof fn lemma_image_aligned(sections: Seq<Seq<u8>>, align: int)
    requires
        0 < align,
    ensures
        image_by(sections, align).len() % align as nat == 0,
    decreases sections.len(),
{
    if sections.len() > 0 {
        lemma_image_aligned(sections.drop_last(), align);
        lemma_aligned(sections.last().len() as int, align);
        lemma_multiples_add(
            image_by(sections.drop_last(), align).len() as int,
            aligned(sections.last().len() as int, align),
            align,
        );
    } else {
        vstd::arithmetic::div_mod::lemma_small_mod(0, align as nat);
    }
}

/// Pads the section that was just written to `align`.
pub(crate) fn close_by(
    out: &mut Vec<u8>,
    align: usize,
    done: Ghost<Seq<Seq<u8>>>,
    section: Ghost<Seq<u8>>,
)
    requires
        0 < align,
        old(out)@ == image_by(done@, align as int) + section@,
    ensures
        final(out)@ == image_by(done@.push(section@), align as int),
{
    proof {
        lemma_image_aligned(done@, align as int);
        lemma_aligned_shift(image_by(done@, align as int).len() as int, section@.len() as int, align as int);
        assert(done@.push(section@).drop_last() =~= done@);
    }
    pad_to(out, align);
    assert(out@ =~= image_by(done@, align as int) + padded(section@, align as int));
}

/// Pads the section that was just written.
pub(crate) fn close_section(out: &mut Vec<u8>, done: Ghost<Seq<Seq<u8>>>, section: Ghost<Seq<u8>>)
    requires
        old(out)@ == image(done@) + section@,
    ensures
        final(out)@ == image(done@.push(section@)),
{
    close_by(out, 64, done, section);
}

} // verus!
