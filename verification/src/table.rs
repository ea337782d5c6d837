//! The table of tag names and their codes.

use vstd::prelude::*;

verus! {

/// The lower-case form of an ASCII upper-case letter; any other character
/// is left as it is.
pub open spec fn fold_char(c: char) -> char {
    if 'A' <= c && c <= 'Z' {
        ((c as u32) + 32) as char
    } else {
        c
    }
}

/// `s` with its ASCII upper-case letters turned to lower case. Two names
/// are the same name where their folded forms are equal.
pub open spec fn fold(s: Seq<char>) -> Seq<char> {
    Seq::new(s.len(), |i: int| fold_char(s[i]))
}

/// `str::eq_ignore_ascii_case` compares two strings as
/// `to_ascii_lowercase` would leave them: with `A` to `Z` mapped to `a` to
/// `z` and every other character unchanged.
pub assume_specification[ str::eq_ignore_ascii_case ](a: &str, b: &str) -> (same: bool)
    ensures
        same == (fold(a@) == fold(b@)),
;

/// One line of a table: a tag name and the attribute code it stands for.
struct ColorEntry {
    name: String,
    code: u8,
}

/// The mapping that a sequence of entries stands for: from folded names to
/// codes, a later entry replacing an earlier one of the same name.
spec fn entries_map(entries: Seq<ColorEntry>) -> Map<Seq<char>, u8>
    decreases entries.len(),
{
    if entries.len() == 0 {
        Map::empty()
    } else {
        entries_map(entries.drop_last()).insert(fold(entries.last().name@), entries.last().code)
    }
}

/// A name that no entry bears is no key of the mapping.
proof fn lemma_entries_absent(entries: Seq<ColorEntry>, key: Seq<char>)
    requires
        forall|j: int| 0 <= j < entries.len() ==> fold(#[trigger] entries[j].name@) != key,
    ensures
        !entries_map(entries).contains_key(key),
    decreases entries.len(),
{
    if entries.len() > 0 {
        let rest = entries.drop_last();
        assert forall|j: int| 0 <= j < rest.len() implies fold(#[trigger] rest[j].name@) != key by {
            assert(rest[j] == entries[j]);
        }
        lemma_entries_absent(rest, key);
        assert(fold(entries[entries.len() - 1].name@) != key);
    }
}

/// The last entry that bears a name gives the name its code.
proof fn lemma_entries_found(entries: Seq<ColorEntry>, key: Seq<char>, i: int)
    requires
        0 <= i < entries.len(),
        fold(entries[i].name@) == key,
        forall|j: int| i < j < entries.len() ==> fold(#[trigger] entries[j].name@) != key,
    ensures
        entries_map(entries).contains_key(key),
        entries_map(entries)[key] == entries[i].code,
    decreases entries.len(),
{
    let rest = entries.drop_last();
    if i < entries.len() - 1 {
        assert(rest[i] == entries[i]);
        assert forall|j: int| i < j < rest.len() implies fold(#[trigger] rest[j].name@) != key by {
            assert(rest[j] == entries[j]);
        }
        lemma_entries_found(rest, key, i);
        assert(fold(entries[entries.len() - 1].name@) != key);
    }
}

/// A table of tag names and attribute codes. Names are kept apart without
/// regard to the case of ASCII letters.
pub struct ColorTable {
    entries: Vec<ColorEntry>,
}

impl View for ColorTable {
    type V = Map<Seq<char>, u8>;

    closed spec fn view(&self) -> Map<Seq<char>, u8> {
        entries_map(self.entries@)
    }
}

impl ColorTable {
    /// A table without entries.
    pub fn new() -> (table: ColorTable)
        ensures
            table@ == Map::<Seq<char>, u8>::empty(),
    {
        ColorTable { entries: Vec::new() }
    }

    /// Gives `name` the code `code`, whatever it stood for before.
    pub fn insert(&mut self, name: &str, code: u8)
        ensures
            final(self)@ == old(self)@.insert(fold(name@), code),
    {
        let entry = ColorEntry { name: name.to_owned(), code };
        self.entries.push(entry);
        proof {
            assert(self.entries@.drop_last() == old(self).entries@);
        }
    }

    /// The code that `name` stands for, if the table holds the name.
    pub fn get(&self, name: &str) -> (code: Option<u8>)
        ensures
            code == (if self@.contains_key(fold(name@)) {
                Some(self@[fold(name@)])
            } else {
                None
            }),
    {
        let mut i: usize = self.entries.len();
        while i > 0
            invariant
                i <= self.entries.len(),
                forall|j: int|
                    i <= j < self.entries.len() ==> fold(#[trigger] self.entries@[j].name@) != fold(
                        name@,
                    ),
            decreases i,
        {
            i = i - 1;
            let entry = &self.entries[i];
            if entry.name.as_str().eq_ignore_ascii_case(name) {
                proof {
                    lemma_entries_found(self.entries@, fold(name@), i as int);
                }
                return Some(entry.code);
            }
        }
        proof {
            lemma_entries_absent(self.entries@, fold(name@));
        }
        None
    }
}

/// The names and codes that every table starts from: the foreground colours,
/// the background colours (the same names between underscores), the text
/// attributes and the two resets.
pub open spec fn builtin_colors() -> Map<Seq<char>, u8> {
    Map::<Seq<char>, u8>::empty()
        .insert(fold("default"@), 39)
        .insert(fold("_default_"@), 49)
        .insert(fold("black"@), 30)
        .insert(fold("red"@), 31)
        .insert(fold("green"@), 32)
        .insert(fold("yellow"@), 33)
        .insert(fold("blue"@), 34)
        .insert(fold("magenta"@), 35)
        .insert(fold("cyan"@), 36)
        .insert(fold("light_gray"@), 37)
        .insert(fold("dark_gray"@), 90)
        .insert(fold("light_red"@), 91)
        .insert(fold("light_green"@), 92)
        .insert(fold("light_yellow"@), 93)
        .insert(fold("light_blue"@), 94)
        .insert(fold("light_magenta"@), 95)
        .insert(fold("light_cyan"@), 96)
        .insert(fold("white"@), 97)
        .insert(fold("_black_"@), 40)
        .insert(fold("_red_"@), 41)
        .insert(fold("_green_"@), 42)
        .insert(fold("_yellow_"@), 43)
        .insert(fold("_blue_"@), 44)
        .insert(fold("_magenta_"@), 45)
        .insert(fold("_cyan_"@), 46)
        .insert(fold("_light_gray_"@), 47)
        .insert(fold("_dark_gray_"@), 100)
        .insert(fold("_light_red_"@), 101)
        .insert(fold("_light_green_"@), 102)
        .insert(fold("_light_yellow_"@), 103)
        .insert(fold("_light_blue_"@), 104)
        .insert(fold("_light_magenta_"@), 105)
        .insert(fold("_light_cyan_"@), 106)
        .insert(fold("_white_"@), 107)
        .insert(fold("bold"@), 1)
        .insert(fold("dim"@), 2)
        .insert(fold("underline"@), 4)
        .insert(fold("blink_slow"@), 5)
        .insert(fold("blink_fast"@), 6)
        .insert(fold("invert"@), 7)
        .insert(fold("hidden"@), 8)
        .insert(fold("reset"@), 0)
        .insert(fold("reset_bold"@), 21)
}

/// Whether `c` is one of the ten ASCII digits.
pub open spec fn is_digit(c: char) -> bool {
    '0' <= c && c <= '9'
}

/// Whether no name of `table` begins with a digit.
pub open spec fn digit_free(table: Map<Seq<char>, u8>) -> bool {
    forall|name: Seq<char>| #[trigger]
        table.contains_key(name) ==> name.len() == 0 || !is_digit(name[0])
}

/// No built-in name begins with a digit.
pub proof fn lemma_builtin_digit_free()
    ensures
        digit_free(builtin_colors()),
{
    reveal_strlit("default");
    reveal_strlit("_default_");
    reveal_strlit("black");
    reveal_strlit("red");
    reveal_strlit("green");
    reveal_strlit("yellow");
    reveal_strlit("blue");
    reveal_strlit("magenta");
    reveal_strlit("cyan");
    reveal_strlit("light_gray");
    reveal_strlit("dark_gray");
    reveal_strlit("light_red");
    reveal_strlit("light_green");
    reveal_strlit("light_yellow");
    reveal_strlit("light_blue");
    reveal_strlit("light_magenta");
    reveal_strlit("light_cyan");
    reveal_strlit("white");
    reveal_strlit("_black_");
    reveal_strlit("_red_");
    reveal_strlit("_green_");
    reveal_strlit("_yellow_");
    reveal_strlit("_blue_");
    reveal_strlit("_magenta_");
    reveal_strlit("_cyan_");
    reveal_strlit("_light_gray_");
    reveal_strlit("_dark_gray_");
    reveal_strlit("_light_red_");
    reveal_strlit("_light_green_");
    reveal_strlit("_light_yellow_");
    reveal_strlit("_light_blue_");
    reveal_strlit("_light_magenta_");
    reveal_strlit("_light_cyan_");
    reveal_strlit("_white_");
    reveal_strlit("bold");
    reveal_strlit("dim");
    reveal_strlit("underline");
    reveal_strlit("blink_slow");
    reveal_strlit("blink_fast");
    reveal_strlit("invert");
    reveal_strlit("hidden");
    reveal_strlit("reset");
    reveal_strlit("reset_bold");
}

impl ColorTable {
    /// The built-in table.
    pub fn builtin() -> (table: ColorTable)
        ensures
            table@ == builtin_colors(),
    {
        let mut table = ColorTable::new();
        table.insert("default", 39);
        table.insert("_default_", 49);
        table.insert("black", 30);
        table.insert("red", 31);
        table.insert("green", 32);
        table.insert("yellow", 33);
        table.insert("blue", 34);
        table.insert("magenta", 35);
        table.insert("cyan", 36);
        table.insert("light_gray", 37);
        table.insert("dark_gray", 90);
        table.insert("light_red", 91);
        table.insert("light_green", 92);
        table.insert("light_yellow", 93);
        table.insert("light_blue", 94);
        table.insert("light_magenta", 95);
        table.insert("light_cyan", 96);
        table.insert("white", 97);
        table.insert("_black_", 40);
        table.insert("_red_", 41);
        table.insert("_green_", 42);
        table.insert("_yellow_", 43);
        table.insert("_blue_", 44);
        table.insert("_magenta_", 45);
        table.insert("_cyan_", 46);
        table.insert("_light_gray_", 47);
        table.insert("_dark_gray_", 100);
        table.insert("_light_red_", 101);
        table.insert("_light_green_", 102);
        table.insert("_light_yellow_", 103);
        table.insert("_light_blue_", 104);
        table.insert("_light_magenta_", 105);
        table.insert("_light_cyan_", 106);
        table.insert("_white_", 107);
        table.insert("bold", 1);
        table.insert("dim", 2);
        table.insert("underline", 4);
        table.insert("blink_slow", 5);
        table.insert("blink_fast", 6);
        table.insert("invert", 7);
        table.insert("hidden", 8);
        table.insert("reset", 0);
        table.insert("reset_bold", 21);
        table
    }
}

} // verus!
