//! The level editor's form for adding a sprite definition, and the listing of
//! the asset files it offers.
use crate::level::{strings_view, DefinitionModel, IVec2, LevelSpriteEntry};
use vstd::prelude::*;

verus! {

pub open spec fn is_ascii_digit(c: char) -> bool {
    '0' <= c && c <= '9'
}

/// The base-10 value of a run of ASCII digits.
pub open spec fn decimal_value(s: Seq<char>) -> int
    decreases s.len(),
{
    if s.len() == 0 {
        0
    } else {
        decimal_value(s.drop_last()) * 10 + ((s.last() as u32) - 48)
    }
}

/// The digits of a decimal integer text, after its optional sign.
pub open spec fn unsigned_part(s: Seq<char>) -> Seq<char> {
    if s.len() > 0 && (s[0] == '-' || s[0] == '+') {
        s.drop_first()
    } else {
        s
    }
}

/// The value of `s` read as a 32-bit signed integer: an optional `+` or `-`
/// followed by at least one ASCII digit, within range; `None` otherwise.
pub open spec fn i32_text_value(s: Seq<char>) -> Option<int> {
    let digits = unsigned_part(s);
    let magnitude = decimal_value(digits);
    let v = if s.len() > 0 && s[0] == '-' {
        -magnitude
    } else {
        magnitude
    };
    if digits.len() == 0 || !(forall|i: int| 0 <= i < digits.len() ==> is_ascii_digit(#[trigger] digits[i])) {
        None
    } else if v < i32::MIN || v > i32::MAX {
        None
    } else {
        Some(v)
    }
}

proof fn lemma_decimal_value_grows(s: Seq<char>, k: int)
    requires
        0 <= k <= s.len(),
        forall|i: int| 0 <= i < s.len() ==> is_ascii_digit(#[trigger] s[i]),
    ensures
        0 <= decimal_value(s.take(k)) <= decimal_value(s),
    decreases s.len(),
{
    if s.len() > 0 {
        if k < s.len() {
            lemma_decimal_value_grows(s.drop_last(), k);
            assert(s.drop_last().take(k) =~= s.take(k));
            assert(is_ascii_digit(s.last()));
        } else {
            assert(s.take(k) =~= s);
            lemma_decimal_value_grows(s.drop_last(), k - 1);
            assert(s.drop_last().take(k - 1) =~= s.drop_last());
            assert(is_ascii_digit(s.last()));
        }
    }
}

/// Reads `s` as a decimal 32-bit signed integer, as `str::parse::<i32>` does.
pub fn parse_i32(s: &str) -> (r: Option<i32>)
    ensures
        match r {
            Some(v) => i32_text_value(s@) == Some(v as int),
            None => i32_text_value(s@) is None,
        },
{
    let ghost t = s@;
    let ghost mut i: int = 0;
    let ghost mut start: int = 0;
    let mut first = true;
    let mut negative = false;
    let mut has_digits = false;
    let mut acc: i64 = 0;
    for c in it: s.chars()
        invariant
            it.seq() == t,
            t == s@,
            i == it.index(),
            i <= t.len(),
            0 <= start <= i,
            first == (i == 0),
            i == 0 ==> start == 0 && !negative,
            i >= 1 ==> start == (if t[0] == '-' || t[0] == '+' { 1int } else { 0int }),
            i >= 1 ==> negative == (t[0] == '-'),
            has_digits == (start < i),
            forall|j: int| start <= j < i ==> is_ascii_digit(#[trigger] t[j]),
            acc == decimal_value(t.subrange(start, i)),
            0 <= acc <= 2147483648,
    {
        let ghost before = t.subrange(start, i);
        assert(t[i] == c);
        if first && (c == '-' || c == '+') {
            negative = c == '-';
            proof {
                start = 1;
            }
            assert(t.subrange(1, 1) =~= Seq::<char>::empty());
        } else if '0' <= c && c <= '9' {
            assert(t.subrange(start, i + 1).drop_last() =~= before);
            acc = acc * 10 + ((c as u32) - 48) as i64;
            has_digits = true;
            if acc > 2147483648 {
                proof {
                    let digits = t.subrange(start, t.len() as int);
                    assert(unsigned_part(t) == digits);
                    if forall|j: int| 0 <= j < digits.len() ==> is_ascii_digit(#[trigger] digits[j]) {
                        lemma_decimal_value_grows(digits, i + 1 - start);
                        assert(digits.take(i + 1 - start) =~= t.subrange(start, i + 1));
                    }
                }
                return None;
            }
        } else {
            proof {
                let digits = t.subrange(start, t.len() as int);
                assert(digits[i - start] == c);
                assert(unsigned_part(t) == digits);
            }
            return None;
        }
        first = false;
        proof {
            i = i + 1;
        }
    }
    proof {
        if t.len() > 0 {
            assert(unsigned_part(t) =~= t.subrange(start, t.len() as int));
        } else {
            assert(unsigned_part(t) =~= t);
        }
    }
    if !has_digits {
        return None;
    }
    if negative {
        Some((-acc) as i32)
    } else if acc <= 2147483647 {
        Some(acc as i32)
    } else {
        None
    }
}

/// The editor's form for a new sprite definition, as typed.
#[derive(Clone, Debug)]
pub struct AddSpriteForm {
    /// Sprite name and identifier.
    pub name: String,
    /// The two offset coordinates, as typed.
    pub offset: [String; 2],
    /// Path of the sprite's texture.
    pub texture: String,
    /// The sprite's attribute expressions.
    pub attributes: Vec<String>,
}

impl Default for AddSpriteForm {
    /// An empty form whose offset reads `0`, `0`.
    fn default() -> (r: AddSpriteForm)
        ensures
            r.name@ == Seq::<char>::empty(),
            r.offset[0]@ == seq!['0'],
            r.offset[1]@ == seq!['0'],
            r.texture@ == Seq::<char>::empty(),
            r.attributes@ == Seq::<String>::empty(),
    {
        proof {
            reveal_strlit("0");
        }
        AddSpriteForm {
            name: String::new(),
            offset: [String::from_str("0"), String::from_str("0")],
            texture: String::new(),
            attributes: Vec::new(),
        }
    }
}

/// The form names a sprite and a texture and both offsets read as integers.
pub open spec fn form_is_valid(form: AddSpriteForm) -> bool {
    &&& form.name@.len() > 0
    &&& form.texture@.len() > 0
    &&& form.offset[0]@.len() > 0
    &&& form.offset[1]@.len() > 0
    &&& i32_text_value(form.offset[0]@) is Some
    &&& i32_text_value(form.offset[1]@) is Some
}

/// Whether the form can become a sprite definition.
pub fn validate_add_sprite_form(form: &AddSpriteForm) -> (r: bool)
    ensures
        r == form_is_valid(*form),
{
    !form.name.as_str().is_empty() && !form.texture.as_str().is_empty()
        && !form.offset[0].as_str().is_empty() && !form.offset[1].as_str().is_empty()
        && parse_i32(form.offset[0].as_str()).is_some() && parse_i32(
        form.offset[1].as_str(),
    ).is_some()
}

impl AddSpriteForm {
    /// The sprite definition that a form whose offsets read as integers makes.
    pub fn into_sprite_entry(self) -> (r: LevelSpriteEntry)
        requires
            i32_text_value(self.offset[0]@) is Some,
            i32_text_value(self.offset[1]@) is Some,
        ensures
            r@ == (DefinitionModel {
                name: self.name@,
                offset: IVec2 {
                    x: i32_text_value(self.offset[0]@)->0 as i32,
                    y: i32_text_value(self.offset[1]@)->0 as i32,
                },
                texture: self.texture@,
                attributes: strings_view(self.attributes@),
            }),
    {
        let x: i32 = match parse_i32(self.offset[0].as_str()) {
            Some(x) => x,
            None => 0,
        };
        let y: i32 = match parse_i32(self.offset[1].as_str()) {
            Some(y) => y,
            None => 0,
        };
        LevelSpriteEntry {
            name: self.name,
            offset: IVec2 { x, y },
            texture: self.texture,
            attributes: self.attributes,
        }
    }
}

/// An entry of an asset directory.
#[derive(Clone, Debug)]
pub struct AssetDirEntry {
    /// The entry's file name.
    pub file_name: String,
    /// Whether the entry is a directory.
    pub is_dir: bool,
}

/// The names of the entries that are files, in the order listed.
pub open spec fn asset_file_names(listing: Seq<AssetDirEntry>) -> Seq<Seq<char>>
    decreases listing.len(),
{
    if listing.len() == 0 {
        Seq::empty()
    } else {
        let rest = asset_file_names(listing.drop_last());
        if listing.last().is_dir {
            rest
        } else {
            rest.push(listing.last().file_name@)
        }
    }
}

fn get_asset_dir_files(listing: &Vec<AssetDirEntry>) -> (r: Vec<String>)
    ensures
        strings_view(r@) == asset_file_names(listing@),
{
    let mut r: Vec<String> = Vec::new();
    let mut i: usize = 0;
    while i < listing.len()
        invariant
            i <= listing.len(),
            strings_view(r@) == asset_file_names(listing@.take(i as int)),
        decreases listing.len() - i,
    {
        assert(listing@.take(i + 1).drop_last() =~= listing@.take(i as int));
        if !listing[i].is_dir {
            let ghost before = r@;
            let name = listing[i].file_name.clone();
            r.push(name);
            assert(r@ == before.push(name));
            assert(strings_view(r@) =~= strings_view(before).push(name@));
        }
        i = i + 1;
    }
    assert(listing@.take(i as int) =~= listing@);
    r
}

/// The music files among the entries of the music directory.
pub fn get_music_files(listing: &Vec<AssetDirEntry>) -> (r: Vec<String>)
    ensures
        strings_view(r@) == asset_file_names(listing@),
{
    get_asset_dir_files(listing)
}

/// The texture files among the entries of the sprite texture directory.
pub fn get_sprite_texture_files(listing: &Vec<AssetDirEntry>) -> (r: Vec<String>)
    ensures
        strings_view(r@) == asset_file_names(listing@),
{
    get_asset_dir_files(listing)
}

} // verus!
