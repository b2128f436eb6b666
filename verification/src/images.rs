//! Image inputs for chat completions: where the bytes come from, their decoding to RGB8, and the
//! expansion of the template's pad token into the image's token rows.
use crate::http::{after_char, before_char, law_split_at_the_first};
use crate::spans::{lemma_pads_bound, pad_rows_of, pads_before, rows_gained, shift_at};
use crate::text::{concat, copy_range, decimal, from_chars, is_white, matches_at, owned, push_decimal, push_text};
use crate::text::{found_at, to_chars, white};
use vstd::prelude::*;
use vstd::utf8::encode_utf8;

verus! {

/// Largest encoded image accepted (bytes).
pub const MAX_IMAGE_BYTES: usize = 33554432;

/// Largest decoded pixel count.
pub const MAX_PIXELS: usize = 67108864;

/// A result by the bytes or the message that it holds.
pub open spec fn bytes_result(r: Result<Vec<u8>, String>) -> Result<Seq<u8>, Seq<char>> {
    match r {
        Ok(v) => Ok(v@),
        Err(e) => Err(e@),
    }
}

/// What `STANDARD.decode` of the base64 crate makes of a text: its bytes, or the text of the error.
pub uninterp spec fn padded_base64(text: Seq<u8>) -> Result<Seq<u8>, Seq<char>>;

/// `base64::engine::general_purpose::STANDARD.decode`: the standard alphabet with canonical
/// padding. The contract names its result, an error by its text.
#[verifier::external_body]
fn decode_padded(text: &[u8]) -> (r: Result<Vec<u8>, String>)
    ensures
        bytes_result(r) == padded_base64(text@),
{
    base64::Engine::decode(&base64::engine::general_purpose::STANDARD, text).map_err(|e| e.to_string())
}

/// What `STANDARD_NO_PAD.decode` of the base64 crate makes of a text.
pub uninterp spec fn bare_base64(text: Seq<u8>) -> Result<Seq<u8>, Seq<char>>;

/// `base64::engine::general_purpose::STANDARD_NO_PAD.decode`: the standard alphabet without
/// padding. The contract names its result, an error by its text.
#[verifier::external_body]
fn decode_bare(text: &[u8]) -> (r: Result<Vec<u8>, String>)
    ensures
        bytes_result(r) == bare_base64(text@),
{
    base64::Engine::decode(&base64::engine::general_purpose::STANDARD_NO_PAD, text).map_err(|e| e.to_string())
}

/// A decoded image: three bytes per pixel, row by row.
pub struct Rgb {
    pub width: u32,
    pub height: u32,
    pub data: Vec<u8>,
}

/// A decoded image as a value.
#[verifier::ext_equal]
pub struct RgbView {
    pub width: u32,
    pub height: u32,
    pub data: Seq<u8>,
}

pub open spec fn rgb_result(r: Result<Rgb, String>) -> Result<RgbView, Seq<char>> {
    match r {
        Ok(i) => Ok(RgbView { width: i.width, height: i.height, data: i.data@ }),
        Err(e) => Err(e@),
    }
}

/// What `image::load_from_memory` makes of a file: the picture in RGB8, or the text of the error.
pub uninterp spec fn loaded_image(bytes: Seq<u8>) -> Result<RgbView, Seq<char>>;

/// `image::load_from_memory`, with the picture taken over as RGB8 (`to_rgb8`). The contract names
/// its result, an error by its text.
#[verifier::external_body]
fn load_rgb(bytes: &[u8]) -> (r: Result<Rgb, String>)
    ensures
        rgb_result(r) == loaded_image(bytes@),
{
    match image::load_from_memory(bytes) {
        Ok(img) => Ok(Rgb { width: img.width(), height: img.height(), data: img.to_rgb8().into_raw() }),
        Err(e) => Err(e.to_string()),
    }
}

/// What an image source says about its bytes.
pub enum Fetched {
    /// They are in the source itself.
    Bytes(Vec<u8>),
    /// They have to be fetched from it, as an http(s) URL.
    Remote,
}

#[verifier::ext_equal]
pub enum FetchedView {
    Bytes(Seq<u8>),
    Remote,
}

pub open spec fn fetched_view(r: Result<Fetched, String>) -> Result<FetchedView, Seq<char>> {
    match r {
        Ok(Fetched::Bytes(b)) => Ok(FetchedView::Bytes(b@)),
        Ok(Fetched::Remote) => Ok(FetchedView::Remote),
        Err(e) => Err(e@),
    }
}

/// The text without its white space.
pub open spec fn without_white(s: Seq<char>, n: int) -> Seq<char>
    decreases n,
{
    if n <= 0 {
        Seq::empty()
    } else if white(s[n - 1]) {
        without_white(s, n - 1)
    } else {
        without_white(s, n - 1).push(s[n - 1])
    }
}

fn drop_white(s: &[char]) -> (v: Vec<char>)
    ensures
        v@ == without_white(s@, s@.len() as int),
{
    let mut v: Vec<char> = Vec::new();
    let n: usize = s.len();
    let mut i: usize = 0;
    while i < n
        invariant
            i <= n,
            n == s@.len(),
            v@ == without_white(s@, i as int),
        decreases n - i,
    {
        if !is_white(s[i]) {
            v.push(s[i]);
        }
        i = i + 1;
    }
    v
}

/// The bytes of a data URI from what the two ways to decode its text came to: padded first, then
/// bare; at most the allowed number.
pub open spec fn uri_bytes(
    padded: Result<Seq<u8>, Seq<char>>,
    bare: Result<Seq<u8>, Seq<char>>,
) -> Result<Seq<u8>, Seq<char>> {
    match (padded, bare) {
        (Err(_), Err(e)) => Err("data URI base64: "@ + e),
        (Err(_), Ok(b)) => if b.len() > MAX_IMAGE_BYTES { Err("image larger than 32 MiB"@) } else { Ok(b) },
        (Ok(b), _) => if b.len() > MAX_IMAGE_BYTES { Err("image larger than 32 MiB"@) } else { Ok(b) },
    }
}

/// The bytes of a data URI from what the two ways to decode its text came to.
pub fn choose_bytes(padded: Result<Vec<u8>, String>, bare: Result<Vec<u8>, String>) -> (r: Result<
    Vec<u8>,
    String,
>)
    ensures
        bytes_result(r) == uri_bytes(bytes_result(padded), bytes_result(bare)),
{
    let bytes: Vec<u8> = match padded {
        Ok(b) => b,
        Err(_) => match bare {
            Ok(b) => b,
            Err(e) => {
                return Err(concat("data URI base64: ", e.as_str()));
            },
        },
    };
    if bytes.len() > MAX_IMAGE_BYTES {
        return Err(owned("image larger than 32 MiB"));
    }
    Ok(bytes)
}

/// Whether a text begins with another.
pub open spec fn begins_with(s: Seq<char>, head: Seq<char>) -> bool {
    found_at(s, head, 0)
}

/// Whether a text ends with another.
pub open spec fn ends_with(s: Seq<char>, tail: Seq<char>) -> bool {
    found_at(s, tail, s.len() - tail.len())
}

/// What is made of an image source.
pub open spec fn fetched(src: Seq<char>) -> Result<FetchedView, Seq<char>> {
    if begins_with(src, "data:"@) {
        let rest = src.skip("data:"@.len() as int);
        match after_char(rest, ',') {
            None => Err("malformed data URI"@),
            Some(data) => if !ends_with(before_char(rest, ','), ";base64"@) {
                Err("data URI must be base64"@)
            } else {
                let text = encode_utf8(without_white(data, data.len() as int));
                match uri_bytes(padded_base64(text), bare_base64(text)) {
                    Ok(b) => Ok(FetchedView::Bytes(b)),
                    Err(e) => Err(e),
                }
            },
        }
    } else if begins_with(src, "http://"@) || begins_with(src, "https://"@) {
        Ok(FetchedView::Remote)
    } else {
        Err("image_url must be a data: URI or an http(s) URL"@)
    }
}

/// The bytes of an image source: those of a `data:` URI (base64), or word that an http(s) URL has
/// to be fetched.
pub fn fetch(src: &str) -> (r: Result<Fetched, String>)
    ensures
        fetched_view(r) == fetched(src@),
{
    let s: Vec<char> = to_chars(src);
    let n: usize = s.len();
    let head: Vec<char> = to_chars("data:");
    if matches_at(s.as_slice(), head.as_slice(), 0) {
        let rest: Vec<char> = copy_range(s.as_slice(), head.len(), n);
        assert(rest@ =~= src@.skip("data:"@.len() as int));
        let (meta, data) = crate::http::split_char(rest.as_slice(), ',');
        match data {
            None => Err(owned("malformed data URI")),
            Some(data) => {
                let tail: Vec<char> = to_chars(";base64");
                if meta.len() < tail.len() || !matches_at(
                    meta.as_slice(),
                    tail.as_slice(),
                    meta.len() - tail.len(),
                ) {
                    return Err(owned("data URI must be base64"));
                }
                let clean: String = from_chars(drop_white(data.as_slice()).as_slice());
                let text: &[u8] = clean.as_str().as_bytes();
                match choose_bytes(decode_padded(text), decode_bare(text)) {
                    Ok(b) => Ok(Fetched::Bytes(b)),
                    Err(e) => Err(e),
                }
            },
        }
    } else if matches_at(s.as_slice(), to_chars("http://").as_slice(), 0) || matches_at(
        s.as_slice(),
        to_chars("https://").as_slice(),
        0,
    ) {
        Ok(Fetched::Remote)
    } else {
        Err(owned("image_url must be a data: URI or an http(s) URL"))
    }
}

/// What is made of a decoded image: an empty or oversized one is refused.
pub open spec fn accepted(img: Result<RgbView, Seq<char>>) -> Result<RgbView, Seq<char>> {
    match img {
        Err(e) => Err("decode image: "@ + e),
        Ok(i) => if i.width == 0 || i.height == 0 || i.width * i.height > MAX_PIXELS {
            Err(
                "image "@ + decimal(i.width as nat) + "x"@ + decimal(i.height as nat)
                    + " out of range"@,
            )
        } else {
            Ok(i)
        },
    }
}

pub open spec fn sized_result(r: Result<(Vec<u8>, usize, usize), String>) -> Result<
    RgbView,
    Seq<char>,
> {
    match r {
        Ok((d, w, h)) => Ok(RgbView { width: w as u32, height: h as u32, data: d@ }),
        Err(e) => Err(e@),
    }
}

/// The pixels and the size of a decoded image; an empty or oversized one is refused.
pub fn check_image(img: Result<Rgb, String>) -> (r: Result<(Vec<u8>, usize, usize), String>)
    ensures
        sized_result(r) == accepted(rgb_result(img)),
{
    match img {
        Err(e) => Err(concat("decode image: ", e.as_str())),
        Ok(i) => {
            let w: u64 = i.width as u64;
            let h: u64 = i.height as u64;
            assert(w * h <= u64::MAX && w * h == i.width * i.height) by (nonlinear_arith)
                requires
                    w == i.width,
                    h == i.height,
                    i.width <= u32::MAX,
                    i.height <= u32::MAX,
            ;
            if w == 0 || h == 0 || w * h > MAX_PIXELS as u64 {
                let mut e: String = owned("image ");
                push_decimal(&mut e, w);
                push_text(&mut e, "x");
                push_decimal(&mut e, h);
                push_text(&mut e, " out of range");
                return Err(e);
            }
            Ok((i.data, i.width as usize, i.height as usize))
        },
    }
}

/// Decode any format the image crate knows to RGB8 (`data`, width, height).
pub fn decode(bytes: &[u8]) -> (r: Result<(Vec<u8>, usize, usize), String>)
    ensures
        sized_result(r) == accepted(loaded_image(bytes@)),
{
    check_image(load_rgb(bytes))
}

// ---- token rows -----------------------------------------------------------------------------

/// An image that is ready for the encoder: what the encoder takes, a hash of that, and the merged
/// token grid.
pub struct Prepared<P> {
    pub patches: P,
    pub hash: u64,
    pub nx: usize,
    pub ny: usize,
}

/// Where an image stands in the prompt: its first row and its token grid.
#[derive(Clone, Copy, Debug, PartialEq, Eq, Structural)]
pub struct ImagePlace {
    pub row: usize,
    pub nx: usize,
    pub ny: usize,
}

/// The token rows of each image.
pub open spec fn image_rows<P>(imgs: Seq<Prepared<P>>) -> Seq<usize> {
    Seq::new(imgs.len(), |i: int| (imgs[i].nx * imgs[i].ny) as usize)
}

/// `n` pads.
pub open spec fn repeated(pad: u32, n: int) -> Seq<u32> {
    Seq::new(n as nat, |i: int| pad)
}

/// The first `n` tokens, each pad replaced by the rows of its image.
pub open spec fn expanded_ids(ids: Seq<u32>, pad: u32, sizes: Seq<usize>, n: int) -> Seq<u32>
    decreases n,
{
    if n <= 0 {
        Seq::empty()
    } else if ids[n - 1] == pad {
        expanded_ids(ids, pad, sizes, n - 1) + repeated(
            pad,
            sizes[pads_before(ids, pad, n - 1)] as int,
        )
    } else {
        expanded_ids(ids, pad, sizes, n - 1).push(ids[n - 1])
    }
}

/// Where the images of the first `n` tokens stand.
pub open spec fn expanded_places<P>(ids: Seq<u32>, pad: u32, imgs: Seq<Prepared<P>>, n: int) -> Seq<
    ImagePlace,
>
    decreases n,
{
    if n <= 0 {
        Seq::empty()
    } else if ids[n - 1] == pad {
        let im = imgs[pads_before(ids, pad, n - 1)];
        expanded_places(ids, pad, imgs, n - 1).push(
            ImagePlace {
                row: expanded_ids(ids, pad, image_rows(imgs), n - 1).len() as usize,
                nx: im.nx,
                ny: im.ny,
            },
        )
    } else {
        expanded_places(ids, pad, imgs, n - 1)
    }
}

proof fn lemma_pads_grow(ids: Seq<u32>, pad: u32, i: int, j: int)
    requires
        0 <= i <= j,
    ensures
        0 <= pads_before(ids, pad, i) <= pads_before(ids, pad, j),
    decreases j,
{
    lemma_pads_bound(ids, pad, i);
    if i < j {
        lemma_pads_grow(ids, pad, i, j - 1);
    }
}

/// Replace each occurrence of `pad` in `ids` (one per image, in order) by `nx*ny` copies and
/// return the expanded ids with the placements. Errors when the counts differ.
pub fn expand_pads<P>(ids: &[u32], pad: u32, imgs: &[Prepared<P>]) -> (r: Result<
    (Vec<u32>, Vec<ImagePlace>),
    String,
>)
    requires
        forall|i: int|
            0 <= i < imgs@.len() ==> (#[trigger] imgs@[i]).nx * imgs@[i].ny <= usize::MAX,
    ensures
        ({
            let n = ids@.len() as int;
            let pads = pads_before(ids@, pad, n);
            match r {
                Ok((out, places)) => pads == imgs@.len() && out@ == expanded_ids(
                    ids@,
                    pad,
                    image_rows(imgs@),
                    n,
                ) && places@ == expanded_places(ids@, pad, imgs@, n),
                Err(e) => pads != imgs@.len() && e@ == decimal(pads as nat)
                    + " image placeholders in the prompt but "@ + decimal(imgs@.len()) + " images"@,
            }
        }),
{
    let n: usize = ids.len();
    let m: usize = imgs.len();
    let mut pads: usize = 0;
    let mut i: usize = 0;
    while i < n
        invariant
            i <= n,
            n == ids@.len(),
            pads <= i,
            pads == pads_before(ids@, pad, i as int),
        decreases n - i,
    {
        if ids[i] == pad {
            pads = pads + 1;
        }
        i = i + 1;
    }
    if pads != m {
        let mut e: String = String::new();
        push_decimal(&mut e, pads as u64);
        push_text(&mut e, " image placeholders in the prompt but ");
        push_decimal(&mut e, m as u64);
        push_text(&mut e, " images");
        assert(e@ =~= decimal(pads as nat) + " image placeholders in the prompt but "@ + decimal(
            imgs@.len(),
        ) + " images"@);
        return Err(e);
    }
    let ghost sizes = image_rows(imgs@);
    let mut out: Vec<u32> = Vec::new();
    let mut places: Vec<ImagePlace> = Vec::new();
    let mut k: usize = 0;
    let mut j: usize = 0;
    while j < n
        invariant
            j <= n,
            n == ids@.len(),
            m == imgs@.len(),
            m == pads_before(ids@, pad, n as int),
            k == pads_before(ids@, pad, j as int),
            sizes == image_rows(imgs@),
            forall|q: int|
                0 <= q < imgs@.len() ==> (#[trigger] imgs@[q]).nx * imgs@[q].ny <= usize::MAX,
            out@ == expanded_ids(ids@, pad, sizes, j as int),
            places@ == expanded_places(ids@, pad, imgs@, j as int),
        decreases n - j,
    {
        let t: u32 = ids[j];
        if t == pad {
            proof {
                lemma_pads_grow(ids@, pad, j + 1, n as int);
            }
            let im: &Prepared<P> = &imgs[k];
            assert(imgs@[k as int].nx * imgs@[k as int].ny <= usize::MAX);
            assert(im.nx * im.ny >= 0) by (nonlinear_arith)
                requires
                    im.nx >= 0,
                    im.ny >= 0,
            ;
            let rows: usize = im.nx * im.ny;
            let at: usize = out.len();
            places.push(ImagePlace { row: at, nx: im.nx, ny: im.ny });
            let ghost before = out@;
            let mut c: usize = 0;
            assert(before =~= before + repeated(pad, 0));
            while c < rows
                invariant
                    c <= rows,
                    out@ == before + repeated(pad, c as int),
                decreases rows - c,
            {
                out.push(pad);
                assert(out@ =~= before + repeated(pad, c + 1));
                c = c + 1;
            }
            assert(sizes[k as int] == rows);
            k = k + 1;
        } else {
            out.push(t);
        }
        j = j + 1;
    }
    Ok((out, places))
}

/// The expanded prompt is as long as expanded spans say: the tokens and what each image is longer
/// than its pad.
pub proof fn law_expanded_length(ids: Seq<u32>, pad: u32, sizes: Seq<usize>, n: int)
    requires
        0 <= n <= ids.len(),
        pads_before(ids, pad, n) <= sizes.len(),
    ensures
        expanded_ids(ids, pad, sizes, n).len() == n + rows_gained(sizes, pads_before(ids, pad, n)),
    decreases n,
{
    if n > 0 {
        lemma_pads_grow(ids, pad, n - 1, n);
        law_expanded_length(ids, pad, sizes, n - 1);
    }
}

/// Expanded tokens stand where expanded spans look for them: token `i` of the prompt, or the first
/// row of its image, moves by as much as every span boundary there.
pub proof fn law_expansion_moves_tokens_like_spans(ids: Seq<u32>, pad: u32, sizes: Seq<usize>, n: int)
    requires
        0 <= n <= ids.len(),
        pads_before(ids, pad, n) <= sizes.len(),
        forall|k: int| 0 <= k < sizes.len() ==> (#[trigger] sizes[k]) >= 1,
    ensures
        expanded_ids(ids, pad, sizes, n).len() == n + shift_at(ids, pad, sizes, n),
        forall|i: int|
            0 <= i < n ==> {
                let p = i + #[trigger] shift_at(ids, pad, sizes, i);
                0 <= p < expanded_ids(ids, pad, sizes, n).len() && expanded_ids(ids, pad, sizes, n)[p]
                    == ids[i]
            },
    decreases n,
{
    if n > 0 {
        lemma_pads_grow(ids, pad, n - 1, n);
        law_expansion_moves_tokens_like_spans(ids, pad, sizes, n - 1);
        let rest = expanded_ids(ids, pad, sizes, n - 1);
        let all = expanded_ids(ids, pad, sizes, n);
        let k = pads_before(ids, pad, n - 1);
        if ids[n - 1] == pad {
            assert(pad_rows_of(sizes, k) == sizes[k]);
            assert(all.len() == rest.len() + sizes[k]);
        }
        assert forall|i: int| 0 <= i < n implies ({
            let p = i + #[trigger] shift_at(ids, pad, sizes, i);
            0 <= p < all.len() && all[p] == ids[i]
        }) by {
            if i < n - 1 {
                let p = i + shift_at(ids, pad, sizes, i);
                assert(all[p] == rest[p]);
            } else {
                assert(all[rest.len() as int] == ids[n - 1]);
            }
        }
    }
}

/// The bytes of a data URI are those of its padded reading, or of the bare one where that fails; too
/// many are refused.
pub proof fn law_either_reading_of_a_data_uri(
    padded: Result<Seq<u8>, Seq<char>>,
    bare: Result<Seq<u8>, Seq<char>>,
)
    ensures
        padded matches Ok(b) ==> (b.len() <= 33554432 ==> uri_bytes(padded, bare) == Ok::<Seq<u8>, Seq<char>>(b)),
        padded is Err ==> (bare matches Ok(b) ==> (b.len() <= 33554432 ==> uri_bytes(padded, bare) == Ok::<
            Seq<u8>,
            Seq<char>,
        >(b))),
        padded is Err && bare is Err ==> uri_bytes(padded, bare) is Err,
        uri_bytes(padded, bare) matches Ok(b) ==> b.len() <= 33554432,
{
}

/// A data URI is read as base64 behind its comma, white space left out; other URIs are fetched over
/// http or refused.
pub proof fn law_sources_of_images(head: Seq<char>, data: Seq<char>, url: Seq<char>)
    requires
        forall|i: int| 0 <= i < head.len() ==> head[i] != ',',
    ensures
        ({
            let src = "data:"@ + head + ";base64"@ + seq![','] + data;
            let text = encode_utf8(without_white(data, data.len() as int));
            match uri_bytes(padded_base64(text), bare_base64(text)) {
                Ok(b) => fetched(src) == Ok::<FetchedView, Seq<char>>(FetchedView::Bytes(b)),
                Err(e) => fetched(src) == Err::<FetchedView, Seq<char>>(e),
            }
        }),
        fetched("http://"@ + url) == Ok::<FetchedView, Seq<char>>(FetchedView::Remote),
        fetched("https://"@ + url) == Ok::<FetchedView, Seq<char>>(FetchedView::Remote),
        !begins_with(url, "data:"@) && !begins_with(url, "http://"@) && !begins_with(url, "https://"@)
            ==> fetched(url) is Err,
        fetched("data:"@ + head) is Err,
{
    reveal_strlit("data:");
    reveal_strlit(";base64");
    reveal_strlit("http://");
    reveal_strlit("https://");
    let kind = head + ";base64"@;
    let rest = kind + seq![','] + data;
    let src = "data:"@ + head + ";base64"@ + seq![','] + data;
    assert(src =~= "data:"@ + rest);
    assert(src.subrange(0, 5) =~= "data:"@);
    assert(src.skip(5) =~= rest);
    assert forall|i: int| 0 <= i < kind.len() implies kind[i] != ',' by {
        if i >= head.len() {
            assert(kind[i] == ";base64"@[i - head.len()]);
        }
    }
    law_split_at_the_first(kind, ',', data);
    assert(kind.subrange(kind.len() - 7, kind.len() as int) =~= ";base64"@);
    let a = "http://"@ + url;
    let b = "https://"@ + url;
    assert(a.subrange(0, 7) =~= "http://"@);
    assert(b.subrange(0, 8) =~= "https://"@);
    assert(a[0] == 'h' && b[0] == 'h' && "data:"@[0] == 'd');
    if begins_with(a, "data:"@) {
        assert(a.subrange(0, 5)[0] == a[0]);
    }
    if begins_with(b, "data:"@) {
        assert(b.subrange(0, 5)[0] == b[0]);
    }
    let c = "data:"@ + head;
    assert(c.subrange(0, 5) =~= "data:"@);
    assert(c.skip(5) =~= head);
    law_split_at_the_first(head, ',', data);
}

/// White space is left out and nothing else.
pub proof fn law_white_space_is_left_out(s: Seq<char>, c: char)
    ensures
        white(c) ==> without_white(s.push(c), s.len() as int + 1) == without_white(s, s.len() as int),
        !white(c) ==> without_white(s.push(c), s.len() as int + 1) == without_white(s, s.len() as int).push(c),
        without_white(Seq::empty(), 0) == Seq::<char>::empty(),
{
    lemma_solid_of_more(s, c, s.len() as int);
    assert(s.push(c)[s.len() as int] == c);
}

proof fn lemma_solid_of_more(s: Seq<char>, c: char, n: int)
    requires
        n <= s.len(),
    ensures
        without_white(s.push(c), n) == without_white(s, n),
    decreases n,
{
    if n > 0 {
        lemma_solid_of_more(s, c, n - 1);
        assert(s.push(c)[n - 1] == s[n - 1]);
    }
}

/// A picture is accepted as it was decoded, unless it is empty or has too many pixels.
pub proof fn law_accepted_pictures(i: RgbView)
    ensures
        0 < i.width && 0 < i.height && i.width * i.height <= 67108864 <==> accepted(Ok(i)) is Ok,
        accepted(Ok(i)) matches Ok(j) ==> j == i,
{
    assert(i.width > 0 && i.height > 0 ==> i.width * i.height > 0) by (nonlinear_arith);
}

/// Every pad becomes as many as its image has tokens, and the image is placed at the first of them
/// with its grid; every other token stays.
pub proof fn law_pads_become_their_images<P>(ids: Seq<u32>, pad: u32, imgs: Seq<Prepared<P>>, n: int)
    requires
        0 <= n < ids.len(),
        pads_before(ids, pad, n + 1) <= imgs.len(),
        forall|i: int| 0 <= i < imgs.len() ==> (#[trigger] imgs[i]).nx * imgs[i].ny <= usize::MAX,
    ensures
        ({
            let before = expanded_ids(ids, pad, image_rows(imgs), n);
            let after = expanded_ids(ids, pad, image_rows(imgs), n + 1);
            let k = pads_before(ids, pad, n);
            let places = expanded_places(ids, pad, imgs, n);
            &&& after.len() >= before.len()
            &&& after.subrange(0, before.len() as int) == before
            &&& ids[n] != pad ==> after == before.push(ids[n]) && expanded_places(ids, pad, imgs, n + 1)
                == places
            &&& ids[n] == pad ==> {
                &&& after.len() == before.len() + imgs[k].nx * imgs[k].ny
                &&& forall|j: int| before.len() <= j < after.len() ==> #[trigger] after[j] == pad
                &&& expanded_places(ids, pad, imgs, n + 1) == places.push(
                    ImagePlace { row: before.len() as usize, nx: imgs[k].nx, ny: imgs[k].ny },
                )
            }
        }),
{
    let k = pads_before(ids, pad, n);
    lemma_pads_bound(ids, pad, n);
    let before = expanded_ids(ids, pad, image_rows(imgs), n);
    let after = expanded_ids(ids, pad, image_rows(imgs), n + 1);
    if ids[n] == pad {
        assert(imgs[k].nx * imgs[k].ny <= usize::MAX);
        assert(0 <= imgs[k].nx * imgs[k].ny) by (nonlinear_arith);
        assert(image_rows(imgs)[k] == imgs[k].nx * imgs[k].ny);
    }
    assert(after.subrange(0, before.len() as int) =~= before);
}

} // verus!
