use vstd::prelude::*;
use vstd::string::{StrSliceExecFns, StringExecFns};

verus! {

/// The mathematical form of a key.
pub enum KeyView {
    Idx(usize),
    Field(Seq<char>),
}

/// One step into a value, borrowing the field name from the document.
#[derive(Debug, Clone, Copy, PartialEq)]
pub enum KeyRef<'a> {
    Idx(usize),
    Field(&'a str),
}

impl<'a> View for KeyRef<'a> {
    type V = KeyView;

    open spec fn view(&self) -> KeyView {
        match self {
            KeyRef::Idx(i) => KeyView::Idx(*i),
            KeyRef::Field(s) => KeyView::Field(s@),
        }
    }
}

/// One step into a value, owning the field name.
#[derive(Debug, PartialEq)]
pub enum Key {
    Idx(usize),
    Field(String),
}

impl View for Key {
    type V = KeyView;

    open spec fn view(&self) -> KeyView {
        match self {
            Key::Idx(i) => KeyView::Idx(*i),
            Key::Field(s) => KeyView::Field(s@),
        }
    }
}

impl<'a> KeyRef<'a> {
    pub fn to_key(&self) -> (r: Key)
        ensures
            r@ == self@,
    {
        match self {
            KeyRef::Idx(i) => Key::Idx(*i),
            KeyRef::Field(s) => Key::Field((*s).to_owned()),
        }
    }
}

/// The location of a value inside a root document: the root itself, or the
/// keys that lead to it from the root, outermost first.
#[derive(Debug, PartialEq)]
pub enum PathRef<'a> {
    Root,
    Keys(Vec<KeyRef<'a>>),
}

impl<'a> View for PathRef<'a> {
    type V = Seq<KeyView>;

    open spec fn view(&self) -> Seq<KeyView> {
        match self {
            PathRef::Root => Seq::empty(),
            PathRef::Keys(keys) => keys@.map_values(|k: KeyRef<'a>| k@),
        }
    }
}

/// A path that owns its keys.
#[derive(Debug, PartialEq)]
pub enum Path {
    Root,
    Keys(Vec<Key>),
}

impl View for Path {
    type V = Seq<KeyView>;

    open spec fn view(&self) -> Seq<KeyView> {
        match self {
            Path::Root => Seq::empty(),
            Path::Keys(keys) => keys@.map_values(|k: Key| k@),
        }
    }
}

fn copy_keys<'a>(list: &Vec<KeyRef<'a>>) -> (r: Vec<KeyRef<'a>>)
    ensures
        r@ == list@,
{
    let mut copy: Vec<KeyRef<'a>> = Vec::new();
    let mut i: usize = 0;
    while i < list.len()
        invariant
            i <= list.len(),
            copy@ == list@.subrange(0, i as int),
        decreases list.len() - i,
    {
        copy.push(list[i]);
        proof {
            assert(list@.subrange(0, i + 1) =~= list@.subrange(0, i as int).push(list@[i as int]));
        }
        i = i + 1;
    }
    proof {
        assert(list@.subrange(0, list@.len() as int) =~= list@);
    }
    copy
}

impl<'a> PathRef<'a> {
    /// The path one step further down; `self` is left as it was.
    pub fn append(&self, next: KeyRef<'a>) -> (r: PathRef<'a>)
        ensures
            r@ == self@.push(next@),
            r is Keys,
    {
        match self {
            PathRef::Root => {
                let mut keys: Vec<KeyRef<'a>> = Vec::new();
                keys.push(next);
                proof {
                    assert(keys@.map_values(|k: KeyRef<'a>| k@) =~= seq![next@]);
                }
                PathRef::Keys(keys)
            },
            PathRef::Keys(list) => {
                let mut copy = copy_keys(list);
                copy.push(next);
                proof {
                    assert(copy@.map_values(|k: KeyRef<'a>| k@) =~= list@.map_values(
                        |k: KeyRef<'a>| k@,
                    ).push(next@));
                }
                PathRef::Keys(copy)
            },
        }
    }

    pub fn duplicate(&self) -> (r: PathRef<'a>)
        ensures
            r@ == self@,
            (r is Root) <==> (self is Root),
    {
        match self {
            PathRef::Root => PathRef::Root,
            PathRef::Keys(list) => PathRef::Keys(copy_keys(list)),
        }
    }

    /// The same path with owned keys.
    pub fn to_path(&self) -> (r: Path)
        ensures
            r@ == self@,
            (r is Root) <==> (self is Root),
    {
        match self {
            PathRef::Root => Path::Root,
            PathRef::Keys(list) => {
                let mut keys: Vec<Key> = Vec::new();
                let mut i: usize = 0;
                while i < list.len()
                    invariant
                        i <= list.len(),
                        keys@.len() == i,
                        forall|j: int| 0 <= j < i ==> #[trigger] keys@[j]@ == list@[j]@,
                    decreases list.len() - i,
                {
                    keys.push(list[i].to_key());
                    i = i + 1;
                }
                proof {
                    assert(keys@.map_values(|k: Key| k@) =~= list@.map_values(|k: KeyRef<'a>| k@));
                }
                Path::Keys(keys)
            },
        }
    }
}

/// The decimal digits of `n`, most significant first.
pub open spec fn decimal(n: nat) -> Seq<char>
    decreases n,
{
    let d = seq!['0', '1', '2', '3', '4', '5', '6', '7', '8', '9'][(n % 10) as int];
    if n < 10 {
        seq![d]
    } else {
        decimal(n / 10).push(d)
    }
}

/// The text of one key: `[i]` for an index, `.name` for a field.
pub open spec fn key_text(k: KeyView) -> Seq<char> {
    match k {
        KeyView::Idx(i) => seq!['['] + decimal(i as nat) + seq![']'],
        KeyView::Field(name) => seq!['.'] + name,
    }
}

/// The text of the first `n` keys, in order.
pub open spec fn keys_text(keys: Seq<KeyView>, n: nat) -> Seq<char>
    decreases n,
{
    if n == 0 || n > keys.len() {
        Seq::empty()
    } else {
        keys_text(keys, (n - 1) as nat) + key_text(keys[n - 1])
    }
}

/// The text of a path: `(root)` for the root, else its keys' texts joined.
pub open spec fn path_text<'a>(p: PathRef<'a>) -> Seq<char> {
    match p {
        PathRef::Root => root_text(),
        PathRef::Keys(_) => keys_text(p@, p@.len()),
    }
}

/// The text that stands for the root.
pub open spec fn root_text() -> Seq<char> {
    seq!['(', 'r', 'o', 'o', 't', ')']
}

fn write_decimal(n: usize, out: &mut String)
    ensures
        final(out)@ == old(out)@ + decimal(n as nat),
    decreases n,
{
    let digits = "0123456789";
    proof {
        reveal_strlit("0123456789");
    }
    if n >= 10 {
        write_decimal(n / 10, out);
    }
    let d = n % 10;
    let piece = digits.substring_char(d, d + 1);
    proof {
        assert(piece@ =~= seq![seq!['0', '1', '2', '3', '4', '5', '6', '7', '8', '9'][d as int]]);
    }
    out.append(piece);
    assert(final(out)@ =~= old(out)@ + decimal(n as nat));
}

impl<'a> KeyRef<'a> {
    pub fn write_text(&self, out: &mut String)
        ensures
            final(out)@ == old(out)@ + key_text(self@),
    {
        match self {
            KeyRef::Idx(i) => {
                proof {
                    reveal_strlit("[");
                    reveal_strlit("]");
                }
                out.append("[");
                write_decimal(*i, out);
                out.append("]");
                assert(final(out)@ =~= old(out)@ + key_text(self@));
            },
            KeyRef::Field(name) => {
                proof {
                    reveal_strlit(".");
                }
                out.append(".");
                out.append(name);
                assert(final(out)@ =~= old(out)@ + key_text(self@));
            },
        }
    }
}

impl<'a> PathRef<'a> {
    /// The path as text: `(root)`, or each key as `[i]` or `.name`.
    pub fn text(&self) -> (r: String)
        ensures
            r@ == path_text(*self),
    {
        match self {
            PathRef::Root => {
                proof {
                    reveal_strlit("(root)");
                }
                let r = String::from_str("(root)");
                assert(r@ =~= root_text());
                r
            },
            PathRef::Keys(keys) => {
                let mut out = String::from_str("");
                proof {
                    reveal_strlit("");
                }
                let ghost v = self@;
                let mut i: usize = 0;
                while i < keys.len()
                    invariant
                        i <= keys@.len(),
                        v == keys@.map_values(|k: KeyRef<'a>| k@),
                        out@ == keys_text(v, i as nat),
                    decreases keys.len() - i,
                {
                    keys[i].write_text(&mut out);
                    i = i + 1;
                }
                proof {
                    assert(keys@.len() == v.len());
                }
                out
            },
        }
    }
}

} // verus!
