//! The game's languages and where their files lie.

use crate::text::{frame_with_name, framed};
use vstd::prelude::*;

verus! {

/// A language of the game, in the order of its numbers (Japanese is 0).
#[derive(Copy, Clone, Debug, PartialEq, Eq, Structural, Hash)]
pub enum Language {
    Japanese,
    US,
    English,
    French,
    Italian,
    German,
    Spanish,
}

/// The letter that starts the names of the language's files.
pub open spec fn prefix_of(lang: Language) -> Seq<char> {
    match lang {
        Language::Japanese => "M"@,
        Language::US => "U"@,
        Language::English => "E"@,
        Language::French => "F"@,
        Language::Italian => "I"@,
        Language::German => "D"@,
        Language::Spanish => "S"@,
    }
}

/// The folder of the language's files.
pub open spec fn folder_of(lang: Language) -> Seq<char> {
    match lang {
        Language::Japanese => "JPN"@,
        Language::US => "USA"@,
        Language::English => "ENG"@,
        Language::French => "FRA"@,
        Language::Italian => "ITA"@,
        Language::German => "GER"@,
        Language::Spanish => "SPN"@,
    }
}

/// Where the folders of all languages lie.
pub open spec fn country_root() -> Seq<char> {
    "AAA/DAT/COUNTRY/"@
}

/// The text around an item's name in the message that a received item
/// shows: what comes before and after the name.
pub open spec fn received_item_of(lang: Language) -> (Seq<char>, Seq<char>) {
    match lang {
        Language::Japanese => ("[name][player_name][name]やった!\n「"@, "」を\nてに，いれたぜ!![pause]"@),
        Language::US => ("[name][player_name][name]Yeah! I got\na "@, "![pause]"@),
        Language::English => ("[name][player_name][name]Yeah! I got\na "@, "![pause]"@),
        Language::French => ("[name][player_name][name]Ouais ! J'ai\nune "@, "![pause]"@),
        Language::Italian => ("[name][player_name][name]Sì! Ho una\n"@, "![pause]"@),
        Language::German => ("[name][player_name][name]Yeah! Hab'\neine "@, "![pause]"@),
        Language::Spanish => ("[name][player_name][name]¡Sí! Tengo\nuna "@, "[pause]"@),
    }
}

impl Language {
    /// The letter that starts the names of the language's files.
    fn to_prefix(&self) -> (r: &'static str)
        ensures
            r@ == prefix_of(*self),
    {
        match self {
            Language::Japanese => "M",
            Language::US => "U",
            Language::English => "E",
            Language::French => "F",
            Language::Italian => "I",
            Language::German => "D",
            Language::Spanish => "S",
        }
    }

    /// The folder of the language's files.
    pub fn to_folder(&self) -> (r: &'static str)
        ensures
            r@ == folder_of(*self),
    {
        match self {
            Language::Japanese => "JPN",
            Language::US => "USA",
            Language::English => "ENG",
            Language::French => "FRA",
            Language::Italian => "ITA",
            Language::German => "GER",
            Language::Spanish => "SPN",
        }
    }

    /// The name of the language's version of a file.
    pub fn to_file_name(&self, file_name: &str) -> (r: String)
        ensures
            r@ == prefix_of(*self) + file_name@,
    {
        let mut r = String::from_str(self.to_prefix());
        r.append(file_name);
        r
    }

    /// The path of the language's version of a file on the disc.
    pub fn to_path(&self, file_name: &str) -> (r: String)
        ensures
            r@ == country_root() + folder_of(*self) + "/"@ + prefix_of(*self) + file_name@,
    {
        let mut r = String::from_str("AAA/DAT/COUNTRY/");
        r.append(self.to_folder());
        r.append("/");
        let name = self.to_file_name(file_name);
        r.append(name.as_str());
        assert(r@ =~= country_root() + folder_of(*self) + "/"@ + prefix_of(*self) + file_name@);
        r
    }

    /// The text before and after the item's name in the message that a
    /// received item shows, in the game's markup.
    pub fn received_item_text(&self) -> (r: (&'static str, &'static str))
        ensures
            (r.0@, r.1@) == received_item_of(*self),
    {
        match self {
            Language::Japanese => ("[name][player_name][name]やった!\n「", "」を\nてに，いれたぜ!![pause]"),
            Language::US => ("[name][player_name][name]Yeah! I got\na ", "![pause]"),
            Language::English => ("[name][player_name][name]Yeah! I got\na ", "![pause]"),
            Language::French => ("[name][player_name][name]Ouais ! J'ai\nune ", "![pause]"),
            Language::Italian => ("[name][player_name][name]Sì! Ho una\n", "![pause]"),
            Language::German => ("[name][player_name][name]Yeah! Hab'\neine ", "![pause]"),
            Language::Spanish => ("[name][player_name][name]¡Sí! Tengo\nuna ", "[pause]"),
        }
    }

    /// The message of a received item: the encoded text before the name,
    /// the item's name without its trailing zero bytes, the encoded text
    /// after it, padded with zeros to a multiple of four bytes. The name
    /// must hold a byte other than zero.
    pub fn to_received_item(&self, item: Vec<u8>, prefix: &[u8], suffix: &[u8]) -> (r: Vec<u8>)
        requires
            exists|i: int| 0 <= i < item.len() && item@[i] != 0,
            prefix.len() + item.len() + suffix.len() + 4 <= usize::MAX,
        ensures
            r@ == framed(prefix@, item@, suffix@),
    {
        frame_with_name(prefix, item.as_slice(), suffix)
    }
}

} // verus!
