//! Which members a JSON text names, and which of them it names twice. A value that was read keeps
//! only the last of two members of one name, so repetitions are looked for in the text.
use crate::json::{compact, parse, parsed, to_compact, Json, JsonView};
use crate::text::{bytes_eq, owned, str_eq};
use vstd::prelude::*;
use vstd::utf8::encode_utf8;

verus! {

/// A reader on its way through a JSON text.
#[verifier::ext_equal]
pub struct Walk {
    /// How many arrays and objects are open.
    pub depth: int,
    /// Whether it stands inside a string.
    pub inside: bool,
    /// Whether the next byte of the string belongs to an escape.
    pub escape: bool,
    /// The bytes of the last string, as they are written.
    pub last: Seq<u8>,
    /// The names of the outermost members, as they are written.
    pub names: Seq<Seq<u8>>,
}

impl Walk {
    /// Over one byte of a string: it ends at a quote that no backslash stands before.
    pub open spec fn within(self, c: u8) -> Walk {
        if self.escape {
            Walk { escape: false, last: self.last.push(c), ..self }
        } else if c == 0x22 {
            Walk { inside: false, ..self }
        } else {
            Walk { escape: c == 0x5c, last: self.last.push(c), ..self }
        }
    }

    /// Over one byte between strings: quotes and brackets open and close, and a colon says that the
    /// last string was a name.
    pub open spec fn between(self, c: u8) -> Walk {
        if c == 0x22 {
            Walk { inside: true, escape: false, last: Seq::empty(), ..self }
        } else if c == 0x7b || c == 0x5b {
            Walk { depth: self.depth + 1, ..self }
        } else if c == 0x7d || c == 0x5d {
            Walk { depth: self.depth - 1, ..self }
        } else if c == 0x3a && self.depth == 1 {
            Walk { names: self.names.push(self.last), ..self }
        } else {
            self
        }
    }

    pub open spec fn over(self, c: u8) -> Walk {
        if self.inside { self.within(c) } else { self.between(c) }
    }
}

/// The walk over the first `n` bytes.
pub open spec fn walked(b: Seq<u8>, n: int) -> Walk
    decreases n,
{
    if n <= 0 {
        Walk { depth: 0, inside: false, escape: false, last: Seq::empty(), names: Seq::empty() }
    } else {
        walked(b, n - 1).over(b[n - 1])
    }
}

/// The names of the members of an object, as its text writes them, without their quotes.
pub open spec fn written_names(b: Seq<u8>) -> Seq<Seq<u8>> {
    walked(b, b.len() as int).names
}

/// The name that is written so.
pub open spec fn name_written(raw: Seq<u8>) -> Option<Seq<char>> {
    match parsed(seq![0x22u8] + raw + seq![0x22u8]) {
        Some(j) => j.text(),
        None => None,
    }
}

/// Whether a name is written at two places.
pub open spec fn named_twice(names: Seq<Seq<u8>>, key: Seq<char>) -> bool {
    exists|i: int, j: int|
        0 <= i < j < names.len() && name_written(#[trigger] names[i]) == Some(key) && name_written(
            #[trigger] names[j],
        ) == Some(key)
}

/// Whether the text of an object, which is read as `j`, names one of those members twice. The
/// compact text of a value names nothing twice.
pub open spec fn repeats(b: Seq<u8>, j: JsonView, keys: Seq<&'static str>) -> bool {
    b != encode_utf8(compact(j)) && exists|k: int|
        0 <= k < keys.len() && named_twice(written_names(b), (#[trigger] keys[k])@)
}

/// The bytes of some names.
pub open spec fn name_bytes(v: Seq<Vec<u8>>) -> Seq<Seq<u8>> {
    Seq::new(v.len(), |i: int| v[i]@)
}

/// The names of the members of an object, as its text writes them, without their quotes.
fn find_names(b: &[u8]) -> (r: Vec<Vec<u8>>)
    ensures
        name_bytes(r@) == written_names(b@),
{
    let n: usize = b.len();
    let mut depth: i128 = 0;
    let mut inside: bool = false;
    let mut escape: bool = false;
    let mut last: Vec<u8> = Vec::new();
    let mut names: Vec<Vec<u8>> = Vec::new();
    let mut i: usize = 0;
    assert(name_bytes(names@) =~= Seq::<Seq<u8>>::empty());
    while i < n
        invariant
            i <= n,
            n == b@.len(),
            -i <= depth <= i,
            walked(b@, i as int) == (Walk {
                depth: depth as int,
                inside,
                escape,
                last: last@,
                names: name_bytes(names@),
            }),
        decreases n - i,
    {
        let c: u8 = b[i];
        if inside {
            if escape {
                escape = false;
                last.push(c);
            } else if c == 0x22 {
                inside = false;
            } else {
                escape = c == 0x5c;
                last.push(c);
            }
        } else if c == 0x22 {
            inside = true;
            escape = false;
            last = Vec::new();
            assert(last@ =~= Seq::<u8>::empty());
        } else if c == 0x7b || c == 0x5b {
            depth = depth + 1;
        } else if c == 0x7d || c == 0x5d {
            depth = depth - 1;
        } else if c == 0x3a && depth == 1 {
            let ghost before = name_bytes(names@);
            let mut copy: Vec<u8> = Vec::new();
            let mut k: usize = 0;
            while k < last.len()
                invariant
                    k <= last@.len(),
                    copy@ == last@.subrange(0, k as int),
                decreases last@.len() - k,
            {
                copy.push(last[k]);
                k = k + 1;
                assert(copy@ =~= last@.subrange(0, k as int));
            }
            assert(copy@ =~= last@);
            names.push(copy);
            assert(name_bytes(names@) =~= before.push(last@));
        }
        i = i + 1;
        assert(walked(b@, i as int) =~= (Walk {
            depth: depth as int,
            inside,
            escape,
            last: last@,
            names: name_bytes(names@),
        }));
    }
    names
}

/// The name that is written so.
fn read_name(raw: &Vec<u8>) -> (r: Option<String>)
    ensures
        match r {
            Some(s) => name_written(raw@) == Some(s@),
            None => name_written(raw@) is None,
        },
{
    let mut b: Vec<u8> = Vec::new();
    b.push(0x22);
    let mut k: usize = 0;
    while k < raw.len()
        invariant
            k <= raw@.len(),
            b@ == seq![0x22u8] + raw@.subrange(0, k as int),
        decreases raw@.len() - k,
    {
        b.push(raw[k]);
        k = k + 1;
        assert(b@ =~= seq![0x22u8] + raw@.subrange(0, k as int));
    }
    b.push(0x22);
    assert(b@ =~= seq![0x22u8] + raw@ + seq![0x22u8]);
    let j = parse(b.as_slice())?;
    match j.as_str() {
        Some(s) => Some(owned(s)),
        None => None,
    }
}

/// The texts of some names, by their views.
pub open spec fn names_read(v: Seq<Option<String>>) -> Seq<Option<Seq<char>>> {
    Seq::new(
        v.len(),
        |i: int|
            match v[i] {
                Some(s) => Some(s@),
                None => None,
            },
    )
}

fn is_named_twice(names: &Vec<Option<String>>, key: &str) -> (r: bool)
    ensures
        r == exists|i: int, j: int|
            0 <= i < j < names@.len() && #[trigger] names_read(names@)[i] == Some(key@)
                && #[trigger] names_read(names@)[j] == Some(key@),
{
    let ghost t = names_read(names@);
    let n: usize = names.len();
    let mut first: Option<usize> = None;
    let mut i: usize = 0;
    while i < n
        invariant
            i <= n,
            n == names@.len(),
            t == names_read(names@),
            t.len() == n,
            match first {
                Some(f) => f < i && t[f as int] == Some(key@) && forall|k: int|
                    0 <= k < i && k != f ==> #[trigger] t[k] != Some(key@),
                None => forall|k: int| 0 <= k < i ==> #[trigger] t[k] != Some(key@),
            },
        decreases n - i,
    {
        let here: bool = match &names[i] {
            Some(s) => str_eq(s.as_str(), key),
            None => false,
        };
        assert(here == (t[i as int] == Some(key@)));
        if here {
            if let Some(f) = first {
                assert(t[f as int] == Some(key@) && t[i as int] == Some(key@));
                return true;
            }
            first = Some(i);
        }
        i = i + 1;
    }
    false
}

/// Whether the text of an object, which is read as `j`, names one of those members twice.
pub fn repeats_member(b: &[u8], j: &Json, keys: &[&'static str]) -> (r: bool)
    ensures
        r == repeats(b@, j@, keys@),
{
    let own: String = to_compact(j);
    if bytes_eq(own.as_str().as_bytes(), b) {
        return false;
    }
    let raw: Vec<Vec<u8>> = find_names(b);
    let ghost w = written_names(b@);
    let mut names: Vec<Option<String>> = Vec::new();
    let n: usize = raw.len();
    let mut i: usize = 0;
    while i < n
        invariant
            i <= n,
            n == raw@.len(),
            w == name_bytes(raw@),
            names@.len() == i,
            forall|k: int| 0 <= k < i ==> #[trigger] names_read(names@)[k] == name_written(w[k]),
        decreases n - i,
    {
        let ghost before = names@;
        names.push(read_name(&raw[i]));
        assert forall|k: int| 0 <= k <= i implies #[trigger] names_read(names@)[k] == name_written(w[k]) by {
            if k < i {
                assert(names_read(before)[k] == name_written(w[k]));
                assert(names@[k] == before[k]);
            }
        }
        i = i + 1;
    }
    let m: usize = keys.len();
    let mut k: usize = 0;
    while k < m
        invariant
            k <= m,
            m == keys@.len(),
            names@.len() == w.len(),
            w == written_names(b@),
            b@ != encode_utf8(compact(j@)),
            forall|q: int| 0 <= q < names@.len() ==> #[trigger] names_read(names@)[q] == name_written(w[q]),
            forall|q: int| 0 <= q < k ==> !named_twice(w, (#[trigger] keys@[q])@),
        decreases m - k,
    {
        let twice: bool = is_named_twice(&names, keys[k]);
        proof {
            let key = keys@[k as int]@;
            let t = names_read(names@);
            if twice {
                let (x, y) = choose|x: int, y: int|
                    0 <= x < y < names@.len() && #[trigger] t[x] == Some(key) && #[trigger] t[y] == Some(key);
                assert(name_written(w[x]) == Some(key) && name_written(w[y]) == Some(key));
            }
            if named_twice(w, key) {
                let (x, y) = choose|x: int, y: int|
                    0 <= x < y < w.len() && name_written(#[trigger] w[x]) == Some(key) && name_written(
                        #[trigger] w[y],
                    ) == Some(key);
                assert(t[x] == Some(key) && t[y] == Some(key));
            }
            assert(twice == named_twice(w, key));
        }
        if twice {
            return true;
        }
        k = k + 1;
    }
    false
}

} // verus!
