//! Layered image decoding: the text is a stream of pixel digits, cut
//! into layers of a fixed size; stacking paints each pixel with the
//! first non-transparent layer.

use vstd::prelude::*;

verus! {

/// One image pixel.
#[derive(Debug, Clone, Copy, PartialEq, Eq, Structural)]
pub enum Pixel {
    Transparent,
    Black,
    White,
}

/// The pixel a digit character denotes. Meaningful for '0', '1', '2'.
pub open spec fn pixel_of(c: char) -> Pixel {
    if c == '0' {
        Pixel::Black
    } else if c == '1' {
        Pixel::White
    } else {
        Pixel::Transparent
    }
}

/// Stacking: a transparent pixel shows the layer below, any other
/// keeps its color.
pub open spec fn paint_spec(top: Pixel, layer: Pixel) -> Pixel {
    match top {
        Pixel::Transparent => layer,
        n => n,
    }
}

impl Pixel {
    /// The pixel a digit character denotes.
    pub fn from(c: char) -> (r: Pixel)
        requires
            c == '0' || c == '1' || c == '2',
        ensures
            r == pixel_of(c),
    {
        match c {
            '0' => Pixel::Black,
            '1' => Pixel::White,
            _ => Pixel::Transparent,
        }
    }

    /// Stacks this pixel over one of the layer below.
    pub fn paint(self, layer: Pixel) -> (r: Pixel)
        ensures
            r == paint_spec(self, layer),
    {
        match self {
            Pixel::Transparent => layer,
            n => n,
        }
    }
}

/// Reads a stream of pixel digits.
pub fn input_gen(input: &str) -> (r: Vec<Pixel>)
    requires
        forall|i: int|
            0 <= i < input@.len() ==> (#[trigger] input@[i] == '0' || input@[i] == '1'
                || input@[i] == '2'),
    ensures
        r@.len() == input@.len(),
        forall|i: int| 0 <= i < r@.len() ==> r@[i] == pixel_of(input@[i]),
{
    proof {
        assert(vstd::string::is_ascii(input)) by {
            assert(forall|i: int|
                0 <= i < input@.len() ==> (input@[i] == '0' || input@[i] == '1' || input@[i]
                    == '2'));
        }
        vstd::string::is_ascii_spec_bytes(input);
    }
    let b = vstd::slice::slice_to_vec(input.as_bytes());
    let mut out: Vec<Pixel> = Vec::new();
    let mut i: usize = 0;
    while i < b.len()
        invariant
            i <= b@.len(),
            b@.len() == input@.len(),
            forall|j: int| 0 <= j < b@.len() ==> b@[j] == input@[j] as u8,
            forall|j: int|
                0 <= j < input@.len() ==> (#[trigger] input@[j] == '0' || input@[j] == '1'
                    || input@[j] == '2'),
            out@.len() == i,
            forall|j: int| 0 <= j < i ==> out@[j] == pixel_of(input@[j]),
        decreases b@.len() - i,
    {
        let c = b[i];
        proof {
            assert(c == input@[i as int] as u8);
        }
        if c == 48 {
            out.push(Pixel::Black);
        } else if c == 49 {
            out.push(Pixel::White);
        } else {
            out.push(Pixel::Transparent);
        }
        i = i + 1;
    }
    out
}

/// How often `p` occurs among `s[lo ..= hi - 1]`.
pub open spec fn count_px(s: Seq<Pixel>, lo: int, hi: int, p: Pixel) -> int
    decreases hi - lo,
{
    if lo >= hi {
        0
    } else {
        (if s[lo] == p {
            1int
        } else {
            0int
        }) + count_px(s, lo + 1, hi, p)
    }
}

/// Counts `p` in the pixels `lo ..= hi - 1`.
fn count_range(s: &Vec<Pixel>, lo: usize, hi: usize, p: Pixel) -> (r: usize)
    requires
        lo <= hi <= s@.len(),
    ensures
        r == count_px(s@, lo as int, hi as int, p),
        r <= hi - lo,
{
    let mut c: usize = 0;
    let mut i = lo;
    while i < hi
        invariant
            lo <= i <= hi <= s@.len(),
            c + count_px(s@, i as int, hi as int, p) == count_px(s@, lo as int, hi as int, p),
            c <= i - lo,
        decreases hi - i,
    {
        if s[i] == p {
            c = c + 1;
        }
        i = i + 1;
    }
    c
}

/// Counts per layer are never negative.
proof fn lemma_count_px_nonneg(s: Seq<Pixel>, lo: int, hi: int, p: Pixel)
    ensures
        count_px(s, lo, hi, p) >= 0,
    decreases hi - lo,
{
    if lo < hi {
        lemma_count_px_nonneg(s, lo + 1, hi, p);
    }
}

/// Whether layer `k` is the one the checksum uses: the first layer
/// with the fewest black pixels.
pub open spec fn first_fewest_black(s: Seq<Pixel>, sz: int, nl: int, k: int) -> bool {
    &&& 0 <= k < nl
    &&& forall|j: int|
        0 <= j < nl ==> #[trigger] count_px(s, j * sz, j * sz + sz, Pixel::Black) >= count_px(
            s,
            k * sz,
            k * sz + sz,
            Pixel::Black,
        )
    &&& forall|j: int|
        0 <= j < k ==> #[trigger] count_px(s, j * sz, j * sz + sz, Pixel::Black) > count_px(
            s,
            k * sz,
            k * sz + sz,
            Pixel::Black,
        )
}

/// The image checksum: on the first layer with the fewest black
/// pixels, the white count times the black count.
pub fn solve_01(input: &[Pixel], width: usize, height: usize) -> (r: usize)
    requires
        width * height >= 1,
        width * height <= input@.len(),
        input@.len() * input@.len() <= usize::MAX,
    ensures
        exists|k: int|
            #[trigger] first_fewest_black(
                input@,
                (width * height) as int,
                input@.len() as int / (width * height) as int,
                k,
            ) && r == count_px(
                input@,
                k * (width * height) as int,
                k * (width * height) as int + (width * height) as int,
                Pixel::White,
            ) * count_px(
                input@,
                k * (width * height) as int,
                k * (width * height) as int + (width * height) as int,
                Pixel::Black,
            ),
{
    let s = vstd::slice::slice_to_vec(input);
    let n = s.len();
    let sz = width * height;
    let nl = n / sz;
    let ghost szi = sz as int;
    let ghost nli = nl as int;
    proof {
        assert(nli * szi <= s@.len()) by (nonlinear_arith)
            requires
                szi >= 1,
                nli == s@.len() as int / szi,
                s@.len() >= szi,
        ;
        assert(nli >= 1) by (nonlinear_arith)
            requires
                szi >= 1,
                nli == s@.len() as int / szi,
                s@.len() >= szi,
        ;
    }
    let mut best_k: usize = 0;
    let mut best_c = count_range(&s, 0, sz, Pixel::Black);
    let mut k: usize = 1;
    while k < nl
        invariant
            1 <= k <= nli,
            nli * szi <= s@.len(),
            szi == sz,
            nli == nl,
            sz >= 1,
            s@ == input@,
            0 <= best_k < k,
            best_c == count_px(s@, best_k * szi, best_k * szi + szi, Pixel::Black),
            forall|j: int|
                0 <= j < k ==> #[trigger] count_px(s@, j * szi, j * szi + szi, Pixel::Black)
                    >= best_c,
            forall|j: int|
                0 <= j < best_k ==> #[trigger] count_px(s@, j * szi, j * szi + szi, Pixel::Black)
                    > best_c,
        decreases nli - k,
    {
        proof {
            assert((k as int + 1) * szi <= nli * szi) by (nonlinear_arith)
                requires
                    k as int + 1 <= nli,
                    szi >= 1,
            ;
            assert(k as int * szi + szi == (k as int + 1) * szi) by (nonlinear_arith);
            assert(k * sz + sz <= s@.len());
        }
        let c = count_range(&s, k * sz, k * sz + sz, Pixel::Black);
        if c < best_c {
            best_k = k;
            best_c = c;
        }
        k = k + 1;
    }
    proof {
        assert((best_k as int + 1) * szi <= nli * szi) by (nonlinear_arith)
            requires
                best_k as int + 1 <= nli,
                szi >= 1,
        ;
        assert(best_k as int * szi + szi == (best_k as int + 1) * szi) by (nonlinear_arith);
    }
    let w = count_range(&s, best_k * sz, best_k * sz + sz, Pixel::White);
    let b = count_range(&s, best_k * sz, best_k * sz + sz, Pixel::Black);
    proof {
        assert(w * b <= s@.len() * s@.len()) by (nonlinear_arith)
            requires
                0 <= w <= s@.len(),
                0 <= b <= s@.len(),
        ;
        assert(first_fewest_black(input@, szi, input@.len() as int / szi, best_k as int));
    }
    w * b
}

/// The pixel shown at offset `j` after stacking the first `t` layers.
pub open spec fn stacked(s: Seq<Pixel>, sz: int, t: int, j: int) -> Pixel
    decreases t,
{
    if t <= 0 {
        Pixel::Transparent
    } else {
        paint_spec(stacked(s, sz, t - 1, j), s[(t - 1) * sz + j])
    }
}

/// Decodes the image: each pixel is the first non-transparent value
/// among its layers, top first.
pub fn solve_02(input: &[Pixel], width: usize, height: usize) -> (r: Vec<Pixel>)
    requires
        width * height >= 1,
        width * height <= input@.len(),
    ensures
        r@.len() == width * height,
        forall|j: int|
            0 <= j < r@.len() ==> r@[j] == stacked(
                input@,
                (width * height) as int,
                input@.len() as int / (width * height) as int,
                j,
            ),
{
    let s = vstd::slice::slice_to_vec(input);
    let n = s.len();
    let sz = width * height;
    let nl = n / sz;
    let ghost szi = sz as int;
    let ghost nli = nl as int;
    proof {
        assert(nli * szi <= s@.len()) by (nonlinear_arith)
            requires
                szi >= 1,
                nli == s@.len() as int / szi,
                s@.len() >= szi,
        ;
    }
    let mut acc: Vec<Pixel> = Vec::new();
    let mut j0: usize = 0;
    while j0 < sz
        invariant
            j0 <= sz,
            acc@.len() == j0,
            forall|j: int| 0 <= j < j0 ==> acc@[j] == Pixel::Transparent,
        decreases sz - j0,
    {
        acc.push(Pixel::Transparent);
        j0 = j0 + 1;
    }
    let mut t: usize = 0;
    while t < nl
        invariant
            t <= nli,
            nli * szi <= s@.len(),
            szi == sz,
            nli == nl,
            sz >= 1,
            s@ == input@,
            n == s@.len(),
            acc@.len() == sz,
            forall|j: int| 0 <= j < sz ==> acc@[j] == stacked(s@, szi, t as int, j),
        decreases nli - t,
    {
        proof {
            assert((t as int + 1) * szi <= nli * szi) by (nonlinear_arith)
                requires
                    t as int + 1 <= nli,
                    szi >= 1,
            ;
            assert(t as int * szi + szi == (t as int + 1) * szi) by (nonlinear_arith);
        }
        let mut j: usize = 0;
        while j < sz
            invariant
                j <= sz,
                t < nli,
                nli * szi <= s@.len(),
                szi == sz,
                sz >= 1,
                s@ == input@,
                n == s@.len(),
                t as int * szi + szi <= s@.len(),
                acc@.len() == sz,
                forall|j2: int| j <= j2 < sz ==> acc@[j2] == stacked(s@, szi, t as int, j2),
                forall|j2: int| 0 <= j2 < j ==> acc@[j2] == stacked(s@, szi, t as int + 1, j2),
            decreases sz - j,
        {
            let cur = acc[j];
            acc[j] = cur.paint(s[t * sz + j]);
            j = j + 1;
        }
        t = t + 1;
    }
    acc
}

} // verus!
