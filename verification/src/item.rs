//! The items of a catalog: what kind each is, where it lives and how it is shown.
use crate::error::SeekerError;
use crate::text::chars_of;
use vstd::prelude::*;
use vstd::string::StringExecFns;

verus! {

/// The greatest type tag of the manifest format.
pub const MAX_TYPE_TAG: usize = 22;

/// An item's name together with the kind of item it names.
#[derive(Debug, PartialEq, Eq)]
pub enum TypeItem {
    /// A module.
    Module(String),
    /// An `extern crate` item.
    ExternCrate(String),
    /// A `use` item.
    Import(String),
    /// A struct.
    Struct(String),
    /// An enum.
    Enum(String),
    /// A function.
    Function(String),
    /// A type alias.
    Typedef(String),
    /// A static.
    Static(String),
    /// A trait.
    Trait(String),
    /// An impl.
    Impl(String),
    /// A method that a trait requires.
    TyMethod(String),
    /// A method with a body.
    Method(String),
    /// A field of a struct.
    StructField(String),
    /// A variant of an enum.
    Variant(String),
    /// A macro.
    Macro(String),
    /// A primitive type.
    Primitive(String),
    /// An associated type.
    AssociatedType(String),
    /// A constant.
    Constant(String),
    /// An associated constant.
    AssociatedConst(String),
    /// A union.
    Union(String),
    /// A foreign type.
    ForeignType(String),
    /// A keyword.
    Keyword(String),
    /// An existential type.
    Existential(String),
}

/// A [`TypeItem`] as plain values: its type tag and the characters of its name.
pub struct TypeItemView {
    pub tag: usize,
    pub text: Seq<char>,
}

/// The word under which the manifest's kind `tag` appears in a page's name.
/// Functions and type aliases go by `fn` and `type`.
pub open spec fn tag_name(tag: usize) -> Seq<char> {
    if tag == 0 {
        "module"@
    } else if tag == 1 {
        "externcrate"@
    } else if tag == 2 {
        "import"@
    } else if tag == 3 {
        "struct"@
    } else if tag == 4 {
        "enum"@
    } else if tag == 5 {
        "fn"@
    } else if tag == 6 {
        "type"@
    } else if tag == 7 {
        "static"@
    } else if tag == 8 {
        "trait"@
    } else if tag == 9 {
        "impl"@
    } else if tag == 10 {
        "tymethod"@
    } else if tag == 11 {
        "method"@
    } else if tag == 12 {
        "structfield"@
    } else if tag == 13 {
        "variant"@
    } else if tag == 14 {
        "macro"@
    } else if tag == 15 {
        "primitive"@
    } else if tag == 16 {
        "associatedtype"@
    } else if tag == 17 {
        "constant"@
    } else if tag == 18 {
        "associatedconst"@
    } else if tag == 19 {
        "union"@
    } else if tag == 20 {
        "foreigntype"@
    } else if tag == 21 {
        "keyword"@
    } else {
        "existential"@
    }
}

impl TypeItemView {
    /// The item as a page names it: the word for its kind, a dot, its name.
    pub open spec fn display(self) -> Seq<char> {
        tag_name(self.tag) + seq!['.'] + self.text
    }
}

impl View for TypeItem {
    type V = TypeItemView;

    open spec fn view(&self) -> TypeItemView {
        TypeItemView { tag: self.tag(), text: self.text() }
    }
}

impl Clone for TypeItem {
    fn clone(&self) -> (copy: TypeItem)
        ensures
            copy == *self,
    {
        match self {
            TypeItem::Module(data) => TypeItem::Module(data.clone()),
            TypeItem::ExternCrate(data) => TypeItem::ExternCrate(data.clone()),
            TypeItem::Import(data) => TypeItem::Import(data.clone()),
            TypeItem::Struct(data) => TypeItem::Struct(data.clone()),
            TypeItem::Enum(data) => TypeItem::Enum(data.clone()),
            TypeItem::Function(data) => TypeItem::Function(data.clone()),
            TypeItem::Typedef(data) => TypeItem::Typedef(data.clone()),
            TypeItem::Static(data) => TypeItem::Static(data.clone()),
            TypeItem::Trait(data) => TypeItem::Trait(data.clone()),
            TypeItem::Impl(data) => TypeItem::Impl(data.clone()),
            TypeItem::TyMethod(data) => TypeItem::TyMethod(data.clone()),
            TypeItem::Method(data) => TypeItem::Method(data.clone()),
            TypeItem::StructField(data) => TypeItem::StructField(data.clone()),
            TypeItem::Variant(data) => TypeItem::Variant(data.clone()),
            TypeItem::Macro(data) => TypeItem::Macro(data.clone()),
            TypeItem::Primitive(data) => TypeItem::Primitive(data.clone()),
            TypeItem::AssociatedType(data) => TypeItem::AssociatedType(data.clone()),
            TypeItem::Constant(data) => TypeItem::Constant(data.clone()),
            TypeItem::AssociatedConst(data) => TypeItem::AssociatedConst(data.clone()),
            TypeItem::Union(data) => TypeItem::Union(data.clone()),
            TypeItem::ForeignType(data) => TypeItem::ForeignType(data.clone()),
            TypeItem::Keyword(data) => TypeItem::Keyword(data.clone()),
            TypeItem::Existential(data) => TypeItem::Existential(data.clone()),
        }
    }
}

impl TypeItem {
    /// The type tag of this kind of item.
    pub open spec fn tag(&self) -> usize {
        match self {
            TypeItem::Module(_) => 0,
            TypeItem::ExternCrate(_) => 1,
            TypeItem::Import(_) => 2,
            TypeItem::Struct(_) => 3,
            TypeItem::Enum(_) => 4,
            TypeItem::Function(_) => 5,
            TypeItem::Typedef(_) => 6,
            TypeItem::Static(_) => 7,
            TypeItem::Trait(_) => 8,
            TypeItem::Impl(_) => 9,
            TypeItem::TyMethod(_) => 10,
            TypeItem::Method(_) => 11,
            TypeItem::StructField(_) => 12,
            TypeItem::Variant(_) => 13,
            TypeItem::Macro(_) => 14,
            TypeItem::Primitive(_) => 15,
            TypeItem::AssociatedType(_) => 16,
            TypeItem::Constant(_) => 17,
            TypeItem::AssociatedConst(_) => 18,
            TypeItem::Union(_) => 19,
            TypeItem::ForeignType(_) => 20,
            TypeItem::Keyword(_) => 21,
            TypeItem::Existential(_) => 22,
        }
    }

    /// The characters of the item's name.
    pub open spec fn text(&self) -> Seq<char> {
        match self {
            TypeItem::Module(data) => data@,
            TypeItem::ExternCrate(data) => data@,
            TypeItem::Import(data) => data@,
            TypeItem::Struct(data) => data@,
            TypeItem::Enum(data) => data@,
            TypeItem::Function(data) => data@,
            TypeItem::Typedef(data) => data@,
            TypeItem::Static(data) => data@,
            TypeItem::Trait(data) => data@,
            TypeItem::Impl(data) => data@,
            TypeItem::TyMethod(data) => data@,
            TypeItem::Method(data) => data@,
            TypeItem::StructField(data) => data@,
            TypeItem::Variant(data) => data@,
            TypeItem::Macro(data) => data@,
            TypeItem::Primitive(data) => data@,
            TypeItem::AssociatedType(data) => data@,
            TypeItem::Constant(data) => data@,
            TypeItem::AssociatedConst(data) => data@,
            TypeItem::Union(data) => data@,
            TypeItem::ForeignType(data) => data@,
            TypeItem::Keyword(data) => data@,
            TypeItem::Existential(data) => data@,
        }
    }

    /// The item of the kind that the manifest tags `tag`, named `data`. Tags
    /// run from 0 to [`MAX_TYPE_TAG`]; any other is refused.
    pub fn new(tag: usize, data: String) -> (item: Result<TypeItem, SeekerError>)
        ensures
            tag <= MAX_TYPE_TAG ==> item is Ok && item->Ok_0@ == (TypeItemView {
                tag,
                text: data@,
            }),
            tag > MAX_TYPE_TAG ==> item == Err::<TypeItem, SeekerError>(SeekerError::UnknownTypeTag(tag)),
    {
        match tag {
            0 => Ok(TypeItem::Module(data)),
            1 => Ok(TypeItem::ExternCrate(data)),
            2 => Ok(TypeItem::Import(data)),
            3 => Ok(TypeItem::Struct(data)),
            4 => Ok(TypeItem::Enum(data)),
            5 => Ok(TypeItem::Function(data)),
            6 => Ok(TypeItem::Typedef(data)),
            7 => Ok(TypeItem::Static(data)),
            8 => Ok(TypeItem::Trait(data)),
            9 => Ok(TypeItem::Impl(data)),
            10 => Ok(TypeItem::TyMethod(data)),
            11 => Ok(TypeItem::Method(data)),
            12 => Ok(TypeItem::StructField(data)),
            13 => Ok(TypeItem::Variant(data)),
            14 => Ok(TypeItem::Macro(data)),
            15 => Ok(TypeItem::Primitive(data)),
            16 => Ok(TypeItem::AssociatedType(data)),
            17 => Ok(TypeItem::Constant(data)),
            18 => Ok(TypeItem::AssociatedConst(data)),
            19 => Ok(TypeItem::Union(data)),
            20 => Ok(TypeItem::ForeignType(data)),
            21 => Ok(TypeItem::Keyword(data)),
            22 => Ok(TypeItem::Existential(data)),
            _ => Err(SeekerError::UnknownTypeTag(tag)),
        }
    }

    /// The item's name.
    pub fn as_ref(&self) -> (name: &String)
        ensures
            name@ == self@.text,
    {
        match self {
            TypeItem::Module(data) => data,
            TypeItem::ExternCrate(data) => data,
            TypeItem::Import(data) => data,
            TypeItem::Struct(data) => data,
            TypeItem::Enum(data) => data,
            TypeItem::Function(data) => data,
            TypeItem::Typedef(data) => data,
            TypeItem::Static(data) => data,
            TypeItem::Trait(data) => data,
            TypeItem::Impl(data) => data,
            TypeItem::TyMethod(data) => data,
            TypeItem::Method(data) => data,
            TypeItem::StructField(data) => data,
            TypeItem::Variant(data) => data,
            TypeItem::Macro(data) => data,
            TypeItem::Primitive(data) => data,
            TypeItem::AssociatedType(data) => data,
            TypeItem::Constant(data) => data,
            TypeItem::AssociatedConst(data) => data,
            TypeItem::Union(data) => data,
            TypeItem::ForeignType(data) => data,
            TypeItem::Keyword(data) => data,
            TypeItem::Existential(data) => data,
        }
    }

    /// The word for the item's kind.
    pub fn kind_name(&self) -> (word: &'static str)
        ensures
            word@ == tag_name(self@.tag),
    {
        match self {
            TypeItem::Module(_) => "module",
            TypeItem::ExternCrate(_) => "externcrate",
            TypeItem::Import(_) => "import",
            TypeItem::Struct(_) => "struct",
            TypeItem::Enum(_) => "enum",
            TypeItem::Function(_) => "fn",
            TypeItem::Typedef(_) => "type",
            TypeItem::Static(_) => "static",
            TypeItem::Trait(_) => "trait",
            TypeItem::Impl(_) => "impl",
            TypeItem::TyMethod(_) => "tymethod",
            TypeItem::Method(_) => "method",
            TypeItem::StructField(_) => "structfield",
            TypeItem::Variant(_) => "variant",
            TypeItem::Macro(_) => "macro",
            TypeItem::Primitive(_) => "primitive",
            TypeItem::AssociatedType(_) => "associatedtype",
            TypeItem::Constant(_) => "constant",
            TypeItem::AssociatedConst(_) => "associatedconst",
            TypeItem::Union(_) => "union",
            TypeItem::ForeignType(_) => "foreigntype",
            TypeItem::Keyword(_) => "keyword",
            TypeItem::Existential(_) => "existential",
        }
    }

    /// Appends the item's displayed form to `f`.
    pub fn fmt(&self, f: &mut String)
        ensures
            final(f)@ == old(f)@ + self@.display(),
    {
        f.append(self.kind_name());
        f.push('.');
        f.append(self.as_ref().as_str());
        assert(f@ =~= old(f)@ + self@.display());
    }

    /// The item's displayed form, such as `struct.Vec` or `fn.dedup`.
    pub fn to_string(&self) -> (shown: String)
        ensures
            shown@ == self@.display(),
    {
        let mut shown = String::new();
        self.fmt(&mut shown);
        assert(shown@ =~= self@.display());
        shown
    }
}

/// An item of the catalog: its name and kind, the item it belongs to, the
/// module path that leads to it, and its one-line description.
#[derive(Debug)]
pub struct DocItem {
    pub name: TypeItem,
    pub parent: Option<TypeItem>,
    pub path: String,
    pub desc: String,
}

/// A [`DocItem`] as plain values.
pub struct DocItemView {
    pub name: TypeItemView,
    pub parent: Option<TypeItemView>,
    pub path: Seq<char>,
    pub desc: Seq<char>,
}

/// What the catalog tells items apart by, and orders them by: the bytes of the
/// name, of the path, and of the parent's displayed form where there is one.
pub struct Key {
    pub name: Seq<u8>,
    pub path: Seq<u8>,
    pub parent: Option<Seq<u8>>,
}

/// The bytes of `text` in UTF-8.
pub open spec fn bytes_of(text: Seq<char>) -> Seq<u8> {
    vstd::utf8::encode_utf8(text)
}

/// A module path as the directories of a page: each `::`, taken from the left,
/// becomes `/`, and one more `/` ends it.
pub open spec fn directories(path: Seq<char>) -> Seq<char>
    decreases path.len(),
{
    if path.len() == 0 {
        seq!['/']
    } else if path.len() >= 2 && path[0] == ':' && path[1] == ':' {
        seq!['/'] + directories(path.skip(2))
    } else {
        seq![path[0]] + directories(path.skip(1))
    }
}

impl DocItemView {
    /// The key of the item.
    pub open spec fn key(self) -> Key {
        Key {
            name: bytes_of(self.name.text),
            path: bytes_of(self.path),
            parent: match self.parent {
                Some(parent) => Some(bytes_of(parent.display())),
                None => None,
            },
        }
    }

    /// The page of the item, relative to the documentation's root. An item
    /// with a parent is an anchor on its parent's page; a module is the index
    /// page of its own directory; any other item has a page of its own.
    pub open spec fn url(self) -> Seq<char> {
        directories(self.path) + match self.parent {
            Some(parent) => parent.display() + ".html#"@ + self.name.display(),
            None => if self.name.tag == 0 {
                self.name.text + "/index.html"@
            } else {
                self.name.display() + ".html"@
            },
        }
    }

    /// The item as a path of displayed forms, joined by `::`.
    pub open spec fn naive(self) -> Seq<char> {
        self.path + "::"@ + match self.parent {
            Some(parent) => parent.display() + "::"@,
            None => Seq::empty(),
        } + self.name.display()
    }
}

impl View for DocItem {
    type V = DocItemView;

    open spec fn view(&self) -> DocItemView {
        DocItemView {
            name: self.name@,
            parent: match self.parent {
                Some(parent) => Some(parent@),
                None => None,
            },
            path: self.path@,
            desc: self.desc@,
        }
    }
}

impl DocItem {
    /// An item made of its four parts.
    pub fn new(name: TypeItem, parent: Option<TypeItem>, path: String, desc: String) -> (item:
        DocItem)
        ensures
            item.name == name,
            item.parent == parent,
            item.path == path,
            item.desc == desc,
    {
        DocItem { name, parent, path, desc }
    }

    /// Appends to `f` the item's path, parent and name, joined by `::`.
    pub fn fmt_naive(&self, f: &mut String)
        ensures
            final(f)@ == old(f)@ + self@.naive(),
    {
        f.append(self.path.as_str());
        f.append("::");
        if let Some(parent) = &self.parent {
            parent.fmt(f);
            f.append("::");
        }
        self.name.fmt(f);
        assert(f@ =~= old(f)@ + self@.naive());
    }

    /// Appends to `f` the address of the item's page.
    pub fn fmt_url(&self, f: &mut String)
        ensures
            final(f)@ == old(f)@ + self@.url(),
    {
        let path = chars_of(self.path.as_str());
        let mut i: usize = 0;
        assert(path@.skip(0) =~= path@);
        while i < path.len()
            invariant
                i <= path.len(),
                f@ + directories(path@.skip(i as int)) == old(f)@ + directories(path@),
            decreases path.len() - i,
        {
            let ghost rest = path@.skip(i as int);
            let ghost before = f@;
            if path[i] == ':' && i + 1 < path.len() && path[i + 1] == ':' {
                f.push('/');
                proof {
                    assert(rest.skip(2) =~= path@.skip(i + 2));
                    assert(f@ + directories(path@.skip(i + 2)) =~= before + directories(rest));
                }
                i += 2;
            } else {
                f.push(path[i]);
                proof {
                    assert(rest.skip(1) =~= path@.skip(i + 1));
                    assert(f@ + directories(path@.skip(i + 1)) =~= before + directories(rest));
                }
                i += 1;
            }
        }
        f.push('/');
        assert(f@ =~= old(f)@ + directories(path@));
        match &self.parent {
            Some(parent) => {
                parent.fmt(f);
                f.append(".html#");
                self.name.fmt(f);
            },
            None => match &self.name {
                TypeItem::Module(name) => {
                    f.append(name.as_str());
                    f.append("/index.html");
                },
                _ => {
                    self.name.fmt(f);
                    f.append(".html");
                },
            },
        }
        assert(f@ =~= old(f)@ + self@.url());
    }

    /// The address of the item's page, such as `std/vec/struct.Vec.html#fn.dedup`.
    pub fn to_string(&self) -> (shown: String)
        ensures
            shown@ == self@.url(),
    {
        let mut shown = String::new();
        self.fmt_url(&mut shown);
        assert(shown@ =~= self@.url());
        shown
    }

    /// The name of the item's parent, where it has one.
    pub fn parent_atom(&self) -> (name: Option<&String>)
        ensures
            match name {
                Some(text) => self@.parent is Some && text@ == self@.parent->Some_0.text,
                None => self@.parent is None,
            },
    {
        match &self.parent {
            Some(parent) => Some(parent.as_ref()),
            None => None,
        }
    }

    /// The bytes under which the index finds the item: those of its name.
    pub fn index_key(&self) -> (key: &[u8])
        ensures
            key@ == self@.key().name,
    {
        self.name.as_ref().as_str().as_bytes()
    }
}

} // verus!
