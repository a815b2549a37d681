//! The sixteen chat colors and their names.

use crate::text::to_chars;
use vstd::prelude::*;

verus! {

/// One of the sixteen named chat colors.
#[derive(Debug, Clone, Copy, PartialEq, Eq, Structural)]
pub enum ChatColor {
    Black,
    DarkBlue,
    DarkGreen,
    DarkAqua,
    DarkRed,
    DarkPurple,
    Gold,
    Gray,
    DarkGray,
    Blue,
    Green,
    Aqua,
    Red,
    LightPurple,
    Yellow,
    White,
}

/// The ASCII letters of `chars`, in order and in lower case.
pub open spec fn letters_lowered(chars: Seq<char>) -> Seq<char>
    decreases chars.len(),
{
    if chars.len() == 0 {
        Seq::empty()
    } else {
        let head = letters_lowered(chars.drop_last());
        let c = chars.last();
        if 'a' <= c <= 'z' {
            head.push(c)
        } else if 'A' <= c <= 'Z' {
            head.push(((c as u8) + 32) as char)
        } else {
            head
        }
    }
}

/// The color whose name, without its underscores, is `letters`.
pub open spec fn color_of_letters(letters: Seq<char>) -> Option<ChatColor> {
    if letters == seq!['b', 'l', 'a', 'c', 'k'] {
        Some(ChatColor::Black)
    } else if letters == seq!['d', 'a', 'r', 'k', 'b', 'l', 'u', 'e'] {
        Some(ChatColor::DarkBlue)
    } else if letters == seq!['d', 'a', 'r', 'k', 'g', 'r', 'e', 'e', 'n'] {
        Some(ChatColor::DarkGreen)
    } else if letters == seq!['d', 'a', 'r', 'k', 'a', 'q', 'u', 'a'] {
        Some(ChatColor::DarkAqua)
    } else if letters == seq!['d', 'a', 'r', 'k', 'r', 'e', 'd'] {
        Some(ChatColor::DarkRed)
    } else if letters == seq!['d', 'a', 'r', 'k', 'p', 'u', 'r', 'p', 'l', 'e'] {
        Some(ChatColor::DarkPurple)
    } else if letters == seq!['g', 'o', 'l', 'd'] {
        Some(ChatColor::Gold)
    } else if letters == seq!['g', 'r', 'a', 'y'] {
        Some(ChatColor::Gray)
    } else if letters == seq!['d', 'a', 'r', 'k', 'g', 'r', 'a', 'y'] {
        Some(ChatColor::DarkGray)
    } else if letters == seq!['b', 'l', 'u', 'e'] {
        Some(ChatColor::Blue)
    } else if letters == seq!['g', 'r', 'e', 'e', 'n'] {
        Some(ChatColor::Green)
    } else if letters == seq!['a', 'q', 'u', 'a'] {
        Some(ChatColor::Aqua)
    } else if letters == seq!['r', 'e', 'd'] {
        Some(ChatColor::Red)
    } else if letters == seq!['l', 'i', 'g', 'h', 't', 'p', 'u', 'r', 'p', 'l', 'e'] {
        Some(ChatColor::LightPurple)
    } else if letters == seq!['y', 'e', 'l', 'l', 'o', 'w'] {
        Some(ChatColor::Yellow)
    } else if letters == seq!['w', 'h', 'i', 't', 'e'] {
        Some(ChatColor::White)
    } else {
        None
    }
}

/// Whether `letters` spells `name`.
fn spells(letters: &Vec<char>, name: &[char]) -> (r: bool)
    ensures
        r == (letters@ == name@),
{
    if letters.len() != name.len() {
        return false;
    }
    let mut i: usize = 0;
    while i < name.len()
        invariant
            letters.len() == name.len(),
            i <= name.len(),
            forall|k: int| 0 <= k < i ==> letters@[k] == name@[k],
        decreases name.len() - i,
    {
        if letters[i] != name[i] {
            return false;
        }
        i += 1;
    }
    assert(letters@ =~= name@);
    true
}

impl ChatColor {
    /// The color that `s` names. Case and every character that is no ASCII
    /// letter are ignored.
    pub fn from_string(s: &str) -> (r: Option<Self>)
        ensures
            r == color_of_letters(letters_lowered(s@)),
    {
        let chars = to_chars(s);
        let mut letters: Vec<char> = Vec::new();
        let mut i: usize = 0;
        proof {
            assert(chars@.subrange(0, 0) =~= Seq::<char>::empty());
        }
        while i < chars.len()
            invariant
                i <= chars.len(),
                letters@ == letters_lowered(chars@.subrange(0, i as int)),
            decreases chars.len() - i,
        {
            let c = chars[i];
            proof {
                let next = chars@.subrange(0, i + 1);
                assert(next.drop_last() =~= chars@.subrange(0, i as int));
                assert(next.last() == c);
            }
            if 'a' <= c && c <= 'z' {
                letters.push(c);
            } else if 'A' <= c && c <= 'Z' {
                letters.push(((c as u8) + 32) as char);
            }
            i += 1;
        }
        proof {
            assert(chars@.subrange(0, chars@.len() as int) =~= chars@);
        }
        if spells(&letters, &['b', 'l', 'a', 'c', 'k']) {
            Some(ChatColor::Black)
        } else if spells(&letters, &['d', 'a', 'r', 'k', 'b', 'l', 'u', 'e']) {
            Some(ChatColor::DarkBlue)
        } else if spells(&letters, &['d', 'a', 'r', 'k', 'g', 'r', 'e', 'e', 'n']) {
            Some(ChatColor::DarkGreen)
        } else if spells(&letters, &['d', 'a', 'r', 'k', 'a', 'q', 'u', 'a']) {
            Some(ChatColor::DarkAqua)
        } else if spells(&letters, &['d', 'a', 'r', 'k', 'r', 'e', 'd']) {
            Some(ChatColor::DarkRed)
        } else if spells(&letters, &['d', 'a', 'r', 'k', 'p', 'u', 'r', 'p', 'l', 'e']) {
            Some(ChatColor::DarkPurple)
        } else if spells(&letters, &['g', 'o', 'l', 'd']) {
            Some(ChatColor::Gold)
        } else if spells(&letters, &['g', 'r', 'a', 'y']) {
            Some(ChatColor::Gray)
        } else if spells(&letters, &['d', 'a', 'r', 'k', 'g', 'r', 'a', 'y']) {
            Some(ChatColor::DarkGray)
        } else if spells(&letters, &['b', 'l', 'u', 'e']) {
            Some(ChatColor::Blue)
        } else if spells(&letters, &['g', 'r', 'e', 'e', 'n']) {
            Some(ChatColor::Green)
        } else if spells(&letters, &['a', 'q', 'u', 'a']) {
            Some(ChatColor::Aqua)
        } else if spells(&letters, &['r', 'e', 'd']) {
            Some(ChatColor::Red)
        } else if spells(&letters, &['l', 'i', 'g', 'h', 't', 'p', 'u', 'r', 'p', 'l', 'e']) {
            Some(ChatColor::LightPurple)
        } else if spells(&letters, &['y', 'e', 'l', 'l', 'o', 'w']) {
            Some(ChatColor::Yellow)
        } else if spells(&letters, &['w', 'h', 'i', 't', 'e']) {
            Some(ChatColor::White)
        } else {
            None
        }
    }

    /// The name of the color, in lower case, with underscores between its words.
    pub open spec fn name(self) -> Seq<char> {
        match self {
            ChatColor::Black => "black"@,
            ChatColor::DarkBlue => "dark_blue"@,
            ChatColor::DarkGreen => "dark_green"@,
            ChatColor::DarkAqua => "dark_aqua"@,
            ChatColor::DarkRed => "dark_red"@,
            ChatColor::DarkPurple => "dark_purple"@,
            ChatColor::Gold => "gold"@,
            ChatColor::Gray => "gray"@,
            ChatColor::DarkGray => "dark_gray"@,
            ChatColor::Blue => "blue"@,
            ChatColor::Green => "green"@,
            ChatColor::Aqua => "aqua"@,
            ChatColor::Red => "red"@,
            ChatColor::LightPurple => "light_purple"@,
            ChatColor::Yellow => "yellow"@,
            ChatColor::White => "white"@,
        }
    }

    /// Computes [`ChatColor::name`].
    pub fn as_str(self) -> (r: &'static str)
        ensures
            r@ == self.name(),
    {
        match self {
            ChatColor::Black => "black",
            ChatColor::DarkBlue => "dark_blue",
            ChatColor::DarkGreen => "dark_green",
            ChatColor::DarkAqua => "dark_aqua",
            ChatColor::DarkRed => "dark_red",
            ChatColor::DarkPurple => "dark_purple",
            ChatColor::Gold => "gold",
            ChatColor::Gray => "gray",
            ChatColor::DarkGray => "dark_gray",
            ChatColor::Blue => "blue",
            ChatColor::Green => "green",
            ChatColor::Aqua => "aqua",
            ChatColor::Red => "red",
            ChatColor::LightPurple => "light_purple",
            ChatColor::Yellow => "yellow",
            ChatColor::White => "white",
        }
    }
}

} // verus!
