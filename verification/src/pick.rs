//! Choosing a capture interface: what is asked, and what an answer means.

use vstd::prelude::*;

use crate::address::{addr_string, addr_text};
use crate::error::Error;
use crate::observation::IpAddr;
use crate::source::{capture_error, interface_texts, InterfaceInfo};
use crate::text;
use crate::text::{decimal, join, strings, trim, unsigned};

verus! {

/// Which of `count` things an answer means, counted from zero: it holds the number of
/// one of them, counted from one, with white space around it or not.
pub open spec fn choice(input: Seq<char>, count: nat) -> Option<nat> {
    match unsigned(trim(input), usize::MAX as nat) {
        Some(n) => if 1 <= n <= count {
            Some((n - 1) as nat)
        } else {
            None
        },
        None => None,
    }
}

/// Reads an answer.
pub fn parse_choice(input: &str, count: usize) -> (r: Option<usize>)
    ensures
        match r {
            Some(i) => choice(input@, count as nat) == Some(i as nat) && i < count,
            None => choice(input@, count as nat) is None,
        },
{
    let chars = text::chars_of(input);
    match text::parse_unsigned(text::trimmed(chars.as_slice()), usize::MAX as u64) {
        Some(n) => if 1 <= n && n <= count as u64 {
            Some((n - 1) as usize)
        } else {
            None
        },
        None => None,
    }
}

/// Every interface can be chosen by its number.
pub proof fn every_number_is_a_choice(i: nat, count: nat)
    requires
        i < count <= usize::MAX,
    ensures
        choice(decimal((i + 1) as nat), count) == Some(i),
{
    let answer = decimal((i + 1) as nat);
    text::decimal_reads_back((i + 1) as nat);
    text::unsigned_reads_decimal((i + 1) as nat, usize::MAX as nat);
    assert(text::is_digit(answer[0]));
    assert(text::is_digit(answer[answer.len() - 1]));
    assert(text::trim_start(answer) == answer);
    assert(text::trim_end(answer) == answer);
}

pub open spec fn address_texts(addresses: Seq<IpAddr>) -> Seq<Seq<char>> {
    Seq::new(addresses.len(), |i: int| addr_text(addresses[i]))
}

/// What is shown of an interface: its description, or its name where it has none,
/// and its addresses.
pub open spec fn row_text(interface: InterfaceInfo) -> Seq<char> {
    let label = if interface.description@.len() == 0 {
        interface.name@
    } else {
        interface.description@
    };
    if interface.addresses@.len() == 0 {
        label
    } else {
        label + "  ["@ + join(address_texts(interface.addresses@), ", "@) + "]"@
    }
}

/// Writes the row of an interface.
pub fn row(interface: &InterfaceInfo) -> (r: String)
    ensures
        r@ == row_text(*interface),
{
    proof {
        reveal_strlit("");
        if interface.description@.len() == 0 {
            assert(interface.description@ =~= ""@);
        }
    }
    let mut out = if text::same_str(interface.description.as_str(), "") {
        text::copy_of(interface.name.as_str())
    } else {
        text::copy_of(interface.description.as_str())
    };
    if interface.addresses.len() == 0 {
        return out;
    }
    let mut addresses: Vec<String> = Vec::new();
    let ghost all = address_texts(interface.addresses@);
    let mut i: usize = 0;
    assert(strings(addresses@) =~= all.take(0));
    while i < interface.addresses.len()
        invariant
            i <= interface.addresses@.len(),
            all == address_texts(interface.addresses@),
            strings(addresses@) == all.take(i as int),
        decreases interface.addresses@.len() - i,
    {
        let ghost before = strings(addresses@);
        let shown = addr_string(interface.addresses[i]);
        addresses.push(shown);
        assert(strings(addresses@) =~= before.push(shown@));
        assert(strings(addresses@) =~= all.take(i + 1));
        i = i + 1;
    }
    assert(all.take(i as int) =~= all);
    out.append("  [");
    let list = text::joined_by(&addresses, ", ");
    out.append(list.as_str());
    out.append("]");
    out
}

/// The line of the menu for the interface of that number: the number, two wide, and
/// the row.
pub open spec fn menu_line(number: nat, interface: InterfaceInfo) -> Seq<char> {
    "  "@ + (if number < 10 {
        " "@
    } else {
        ""@
    }) + decimal(number) + ") "@ + row_text(interface) + "\n"@
}

/// The menu lines of the first `n` interfaces.
pub open spec fn menu_lines(interfaces: Seq<InterfaceInfo>, n: int) -> Seq<char>
    decreases n,
{
    if n <= 0 {
        Seq::empty()
    } else {
        menu_lines(interfaces, n - 1) + menu_line(n as nat, interfaces[n - 1])
    }
}

/// Writes the menu: a heading, and a line for each interface.
pub fn menu(interfaces: &Vec<InterfaceInfo>) -> (r: String)
    ensures
        r@ == "Interfaces:\n"@ + menu_lines(interfaces@, interfaces@.len() as int),
{
    let mut out = text::copy_of("Interfaces:\n");
    let ghost heading = out@;
    let mut i: usize = 0;
    assert(out@ =~= heading + menu_lines(interfaces@, 0));
    while i < interfaces.len()
        invariant
            i <= interfaces@.len(),
            out@ == heading + menu_lines(interfaces@, i as int),
        decreases interfaces@.len() - i,
    {
        let ghost before = out@;
        let number: u64 = i as u64 + 1;
        out.append("  ");
        out.append(
            if number < 10 {
                " "
            } else {
                ""
            },
        );
        text::push_decimal(&mut out, number);
        out.append(") ");
        let shown = row(&interfaces[i]);
        out.append(shown.as_str());
        out.append("\n");
        assert(out@ =~= before + menu_line((i + 1) as nat, interfaces@[i as int]));
        assert(out@ =~= heading + menu_lines(interfaces@, i + 1));
        i = i + 1;
    }
    out
}

/// Asks for one of `count` interfaces.
pub fn prompt(count: usize) -> (r: String)
    ensures
        r@ == "Capture on which interface? [1-"@ + decimal(count as nat) + "]: "@,
{
    let mut out = text::copy_of("Capture on which interface? [1-");
    text::push_decimal(&mut out, count as u64);
    out.append("]: ");
    out
}

/// Why nobody was asked.
pub open spec fn nobody_to_ask(interfaces: Seq<InterfaceInfo>) -> Seq<char> {
    "no --interface given and no terminal to ask on; pass one of: "@ + join(
        interface_texts(interfaces),
        ", "@,
    )
}

/// Checks that there is something to ask, and somebody to answer.
pub fn before_asking(interfaces: &Vec<InterfaceInfo>, is_terminal: bool) -> (r: Result<(), Error>)
    ensures
        match r {
            Ok(()) => interfaces@.len() > 0 && is_terminal,
            Err(error) => if interfaces@.len() == 0 {
                capture_error(error, "no capture interfaces found on this host"@)
            } else {
                !is_terminal && capture_error(error, nobody_to_ask(interfaces@))
            },
        },
{
    if interfaces.len() == 0 {
        return Err(Error::Capture(text::copy_of("no capture interfaces found on this host")));
    }
    if is_terminal {
        return Ok(());
    }
    let mut names: Vec<String> = Vec::new();
    let ghost all = interface_texts(interfaces@);
    let mut i: usize = 0;
    assert(strings(names@) =~= all.take(0));
    while i < interfaces.len()
        invariant
            i <= interfaces@.len(),
            all == interface_texts(interfaces@),
            strings(names@) == all.take(i as int),
        decreases interfaces@.len() - i,
    {
        let ghost before = strings(names@);
        let shown = interfaces[i].display();
        names.push(shown);
        assert(strings(names@) =~= before.push(shown@));
        assert(strings(names@) =~= all.take(i + 1));
        i = i + 1;
    }
    assert(all.take(i as int) =~= all);
    let mut reason = text::copy_of(
        "no --interface given and no terminal to ask on; pass one of: ",
    );
    let list = text::joined_by(&names, ", ");
    reason.append(list.as_str());
    Err(Error::Capture(reason))
}

/// What an answer leads to.
#[derive(Debug)]
pub enum Answer {
    /// The interface of this name, and what to say about it.
    Chosen { name: String, note: String },
    /// Ask again, after saying this.
    Again(String),
}

pub open spec fn chosen_note(name: Seq<char>) -> Seq<char> {
    "Capturing on "@ + name + " (pass `-i "@ + name + "` to skip this prompt)"@
}

pub open spec fn again_note(count: nat) -> Seq<char> {
    "Enter a number from 1 to "@ + decimal(count) + "."@
}

/// Takes an answer; `None` where there was none to be had.
pub fn answer(line: Option<&str>, interfaces: &Vec<InterfaceInfo>) -> (r: Result<Answer, Error>)
    ensures
        match line {
            Some(line) => match (choice(line@, interfaces@.len()), r) {
                (Some(i), Ok(Answer::Chosen { name, note })) => name@
                    == interfaces@[i as int].name@ && note@ == chosen_note(name@),
                (None, Ok(Answer::Again(note))) => note@ == again_note(interfaces@.len()),
                _ => false,
            },
            None => r matches Err(error) && capture_error(error, "no interface chosen"@),
        },
{
    let line = match line {
        Some(line) => line,
        None => {
            return Err(Error::Capture(text::copy_of("no interface chosen")));
        },
    };
    match parse_choice(line, interfaces.len()) {
        Some(i) => {
            let name = text::copy_of(interfaces[i].name.as_str());
            let mut note = text::copy_of("Capturing on ");
            note.append(name.as_str());
            note.append(" (pass `-i ");
            note.append(name.as_str());
            note.append("` to skip this prompt)");
            Ok(Answer::Chosen { name, note })
        },
        None => {
            let mut note = text::copy_of("Enter a number from 1 to ");
            text::push_decimal(&mut note, interfaces.len() as u64);
            note.append(".");
            Ok(Answer::Again(note))
        },
    }
}

/// An answer means the thing of the number that it holds, counted from one; what holds
/// no number, nought, or a number beyond the last thing means none.
pub proof fn answers_count_from_one(input: Seq<char>, count: nat)
    ensures
        choice(input, count) matches Some(i) ==> i < count && unsigned(
            trim(input),
            usize::MAX as nat,
        ) == Some(i + 1),
        choice(input, count) is None <==> match unsigned(trim(input), usize::MAX as nat) {
            Some(n) => n == 0 || n > count,
            None => true,
        },
{
}

/// The menu gives each interface a line of its own, and counts them from one. The row
/// begins at the same place in the line for all numbers below a hundred.
pub proof fn the_menu_counts_from_one(interfaces: Seq<InterfaceInfo>, i: int, line: Seq<char>)
    requires
        0 <= i < 99,
        line == menu_line((i + 1) as nat, interfaces[i]),
    ensures
        menu_lines(interfaces, i + 1) == menu_lines(interfaces, i) + line,
        unsigned(trim(line.take(4)), 99) == Some((i + 1) as nat),
        line.subrange(4, 6) == seq![')', ' '],
        line.subrange(6, line.len() - 1) == row_text(interfaces[i]),
        line.last() == '\n',
{
    reveal_strlit("  ");
    reveal_strlit(" ");
    reveal_strlit("");
    reveal_strlit(") ");
    reveal_strlit("\n");
    let n = (i + 1) as nat;
    text::unsigned_reads_decimal(n, 99);
    text::decimal_reads_back(n);
    reveal_with_fuel(decimal, 3);
    let room = if n < 10 {
        seq![' ', ' ', ' ']
    } else {
        seq![' ', ' ']
    };
    assert(line.take(4) =~= room + decimal(n) + Seq::<char>::empty());
    assert(text::is_digit(decimal(n)[0]) && text::is_digit(decimal(n).last()));
    text::trimming_undoes_padding(room, decimal(n), Seq::empty());
    assert(line.subrange(4, 6) =~= seq![')', ' ']);
    assert(line.subrange(6, line.len() - 1) =~= row_text(interfaces[i]));
}

/// An interface is told by its description, or by its name where it has none; its
/// addresses follow in square brackets where it has any.
pub proof fn rows_tell_description_and_addresses(interface: InterfaceInfo)
    ensures
        ({
            let row = row_text(interface);
            let told = if interface.description@.len() > 0 {
                interface.description@
            } else {
                interface.name@
            };
            let n = told.len() as int;
            &&& row.take(n) == told
            &&& interface.addresses@.len() == 0 ==> row.len() == n
            &&& interface.addresses@.len() > 0 ==> row.subrange(n, n + 3) == seq![' ', ' ', '[']
                && row.last() == ']' && row.subrange(n + 3, row.len() - 1) == join(
                address_texts(interface.addresses@),
                seq![',', ' '],
            )
        }),
{
    reveal_strlit("  [");
    reveal_strlit("]");
    reveal_strlit(", ");
    let row = row_text(interface);
    let told = if interface.description@.len() > 0 {
        interface.description@
    } else {
        interface.name@
    };
    let n = told.len() as int;
    assert(", "@ =~= seq![',', ' ']);
    assert(row.take(n) =~= told);
    if interface.addresses@.len() > 0 {
        assert(row.subrange(n, n + 3) =~= seq![' ', ' ', '[']);
        assert(row.subrange(n + 3, row.len() - 1) =~= join(
            address_texts(interface.addresses@),
            ", "@,
        ));
    }
}

} // verus!
