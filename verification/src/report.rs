//! The integer and text parts of the analysis report.

use vstd::prelude::*;

verus! {

/// Number of unordered pairs of distinct locations among `n`: the figure the
/// report prints as its edge count.
pub open spec fn pair_count_spec(n: nat) -> nat {
    (n * (n - 1) / 2) as nat
}

/// `n * (n - 1) / 2`, the number of location pairs. The report computes
/// `n - 1`, which is refused for `n == 0`, and the product must fit.
pub fn location_pair_count(n: usize) -> (count: usize)
    requires
        1 <= n,
        n * (n - 1) <= usize::MAX,
    ensures
        count == pair_count_spec(n as nat),
        2 * count == n * (n - 1),
{
    proof {
        lemma_pair_count_exact(n as nat);
    }
    n * (n - 1) / 2
}

/// Twice the pair count is `n * (n - 1)`: the division never rounds.
pub proof fn lemma_pair_count_exact(n: nat)
    requires
        1 <= n,
    ensures
        2 * pair_count_spec(n) == n * (n - 1),
        pair_count_spec(n + 1) == pair_count_spec(n) + n,
{
    let m = (n - 1) as nat;
    assert((n * m) % 2 == 0) by (nonlinear_arith)
        requires
            m + 1 == n,
    {
        assert(n * m == m * m + m);
        assert((m * m + m) % 2 == 0) by {
            assert(m % 2 == 0 || m % 2 == 1);
            if m % 2 == 0 {
                let h = m / 2;
                assert(m * m + m == 2 * (2 * h * h + h));
            } else {
                let h = m / 2;
                assert(m == 2 * h + 1);
                assert(m * m + m == 2 * (2 * h * h + 3 * h + 1));
            }
        }
    }
    assert((n + 1) * n == n * m + 2 * n) by (nonlinear_arith)
        requires
            m + 1 == n,
    ;
}

/// The decimal digit character for `d < 10`.
pub open spec fn digit_char(d: nat) -> char {
    (48 + d) as char
}

/// The decimal representation of `n`, without leading zeros.
pub open spec fn decimal(n: nat) -> Seq<char>
    decreases n,
{
    if n < 10 {
        seq![digit_char(n)]
    } else {
        decimal(n / 10).push(digit_char(n % 10))
    }
}

/// The number a string of decimal digits denotes.
pub open spec fn digits_value(text: Seq<char>) -> nat
    decreases text.len(),
{
    if text.len() == 0 {
        0
    } else {
        digits_value(text.drop_last()) * 10 + ((text.last() as nat) - 48) as nat
    }
}

/// `decimal(n)` consists of digits, denotes `n`, and starts with a nonzero
/// digit unless `n` is 0.
pub proof fn lemma_decimal_denotes(n: nat)
    ensures
        digits_value(decimal(n)) == n,
        forall|k: int| 0 <= k < decimal(n).len() ==> '0' <= #[trigger] decimal(n)[k] <= '9',
        decimal(n).len() >= 1,
        n >= 10 ==> decimal(n)[0] != '0',
    decreases n,
{
    lemma_digit_char_value((n % 10) as nat);
    if n >= 10 {
        lemma_decimal_denotes(n / 10);
        let prefix = decimal(n / 10);
        assert(decimal(n).drop_last() =~= prefix);
        assert(decimal(n).last() == digit_char((n % 10) as nat));
        assert(digits_value(decimal(n)) == digits_value(prefix) * 10 + (n % 10));
        assert((n / 10) * 10 + n % 10 == n);
        assert(decimal(n)[0] == prefix[0]);
        assert forall|k: int| 0 <= k < decimal(n).len() implies '0' <= #[trigger] decimal(n)[k] <= '9' by {
            if k < prefix.len() {
                assert(decimal(n)[k] == prefix[k]);
            }
        }
    } else {
        assert(decimal(n).drop_last() =~= Seq::<char>::empty());
        assert(decimal(n).last() == digit_char(n));
        assert(digits_value(decimal(n)) == digits_value(Seq::<char>::empty()) * 10 + n);
    }
}

proof fn lemma_digit_char_value(d: nat)
    requires
        d < 10,
    ensures
        digit_char(d) as nat == 48 + d,
        '0' <= digit_char(d) <= '9',
{
    assert(((48 + d) as char) as nat == 48 + d);
}

fn digit_text(d: usize) -> (text: &'static str)
    requires
        d < 10,
    ensures
        text@ == seq![digit_char(d as nat)],
{
    if d == 0 {
        proof { reveal_strlit("0"); }
        "0"
    } else if d == 1 {
        proof { reveal_strlit("1"); }
        "1"
    } else if d == 2 {
        proof { reveal_strlit("2"); }
        "2"
    } else if d == 3 {
        proof { reveal_strlit("3"); }
        "3"
    } else if d == 4 {
        proof { reveal_strlit("4"); }
        "4"
    } else if d == 5 {
        proof { reveal_strlit("5"); }
        "5"
    } else if d == 6 {
        proof { reveal_strlit("6"); }
        "6"
    } else if d == 7 {
        proof { reveal_strlit("7"); }
        "7"
    } else if d == 8 {
        proof { reveal_strlit("8"); }
        "8"
    } else {
        proof { reveal_strlit("9"); }
        "9"
    }
}

/// `n` written in decimal.
pub fn decimal_text(n: usize) -> (text: String)
    ensures
        text@ == decimal(n as nat),
        digits_value(text@) == n,
    decreases n,
{
    let text = if n < 10 {
        String::from_str(digit_text(n))
    } else {
        let mut text = decimal_text(n / 10);
        text.append(digit_text(n % 10));
        text
    };
    proof {
        lemma_decimal_denotes(n as nat);
    }
    text
}

/// The texts joined in order, with `sep` between neighbours.
pub open spec fn joined(texts: Seq<Seq<char>>, sep: Seq<char>) -> Seq<char>
    decreases texts.len(),
{
    if texts.len() == 0 {
        Seq::empty()
    } else if texts.len() == 1 {
        texts[0]
    } else {
        joined(texts.drop_last(), sep) + sep + texts.last()
    }
}

/// Total length of the texts.
pub open spec fn total_len(texts: Seq<Seq<char>>) -> nat
    decreases texts.len(),
{
    if texts.len() == 0 {
        0
    } else {
        total_len(texts.drop_last()) + texts.last().len()
    }
}

/// Joining one more text appends the separator and that text.
pub proof fn lemma_joined_push(texts: Seq<Seq<char>>, sep: Seq<char>, t: Seq<char>)
    requires
        texts.len() >= 1,
    ensures
        joined(texts.push(t), sep) == joined(texts, sep) + sep + t,
{
    assert(texts.push(t).drop_last() =~= texts);
}

/// Joining `n >= 1` texts gives all their characters plus `n - 1` separators;
/// joining none gives nothing; a single text is itself.
pub proof fn lemma_joined_len(texts: Seq<Seq<char>>, sep: Seq<char>)
    ensures
        texts.len() == 0 ==> joined(texts, sep).len() == 0,
        texts.len() == 1 ==> joined(texts, sep) == texts[0],
        texts.len() >= 1 ==> joined(texts, sep).len() == total_len(texts) + sep.len() * (texts.len() - 1),
    decreases texts.len(),
{
    if texts.len() == 1 {
        assert(texts.drop_last() =~= Seq::<Seq<char>>::empty());
        assert(total_len(texts.drop_last()) == 0);
        assert(texts.last() == texts[0]);
        assert(total_len(texts) == texts[0].len());
        assert(sep.len() * (texts.len() - 1) == 0) by (nonlinear_arith)
            requires
                texts.len() == 1,
        ;
    } else if texts.len() > 1 {
        let rest = texts.drop_last();
        lemma_joined_len(rest, sep);
        let k = texts.len() - 1;
        assert(joined(texts, sep) == joined(rest, sep) + sep + texts.last());
        assert(joined(texts, sep).len() == joined(rest, sep).len() + sep.len() + texts.last().len());
        assert(total_len(texts) == total_len(rest) + texts.last().len());
        assert(joined(rest, sep).len() == total_len(rest) + sep.len() * (k - 1));
        assert(sep.len() * k == sep.len() * (k - 1) + sep.len()) by (nonlinear_arith);
    }
}

/// The views of a list of names.
pub open spec fn name_texts(names: Seq<String>) -> Seq<Seq<char>> {
    names.map_values(|name: String| name@)
}

/// The names, separated by a comma and a space.
pub fn join_names(names: &Vec<String>) -> (text: String)
    ensures
        text@ == joined(name_texts(names@), ", "@),
        names.len() == 0 ==> text@.len() == 0,
        names.len() >= 1 ==> text@.len() == total_len(name_texts(names@)) + 2 * (names.len() - 1),
{
    let mut text = String::new();
    let mut i: usize = 0;
    while i < names.len()
        invariant
            i <= names.len(),
            text@ == joined(name_texts(names@.take(i as int)), ", "@),
        decreases names.len() - i,
    {
        proof {
            assert(name_texts(names@.take(i + 1)).drop_last() =~= name_texts(names@.take(i as int)));
            assert(name_texts(names@.take(i + 1)).last() == names@[i as int]@);
        }
        if i > 0 {
            text.append(", ");
        } else {
            assert(name_texts(names@.take(1))[0] == names@[0]@);
            assert(text@ + names@[0]@ =~= names@[0]@);
        }
        text.append(names[i].as_str());
        i = i + 1;
    }
    proof {
        assert(names@.take(names.len() as int) =~= names@);
        lemma_joined_len(name_texts(names@), ", "@);
        reveal_strlit(", ");
    }
    text
}

/// The word after a member count, singular for exactly one member.
pub open spec fn member_word(count: nat) -> Seq<char> {
    if count == 1 { " member): "@ } else { " members): "@ }
}

/// One line of the communities section: label, member count, member names.
pub open spec fn community_line(label: usize, members: Seq<String>) -> Seq<char> {
    "  Community "@ + decimal(label as nat) + " ("@ + decimal(members.len()) + member_word(members.len())
        + joined(name_texts(members), ", "@) + "\n"@
}

/// The lines of all groups, in order.
pub open spec fn community_lines(groups: Seq<(usize, Vec<String>)>) -> Seq<char>
    decreases groups.len(),
{
    if groups.len() == 0 {
        Seq::empty()
    } else {
        community_lines(groups.drop_last()) + community_line(groups.last().0, groups.last().1@)
    }
}

/// The communities section of the report: its heading, one line per group in
/// the order given, and a blank line.
pub fn community_section(groups: &Vec<(usize, Vec<String>)>) -> (text: String)
    ensures
        text@ == "\u{2500}\u{2500}\u{2500} Spectral Communities \u{2500}\u{2500}\u{2500}\n"@
            + community_lines(groups@) + "\n"@,
{
    let mut text = String::from_str("\u{2500}\u{2500}\u{2500} Spectral Communities \u{2500}\u{2500}\u{2500}\n");
    let ghost heading = text@;
    let mut g: usize = 0;
    while g < groups.len()
        invariant
            g <= groups.len(),
            heading == "\u{2500}\u{2500}\u{2500} Spectral Communities \u{2500}\u{2500}\u{2500}\n"@,
            text@ == heading + community_lines(groups@.take(g as int)),
        decreases groups.len() - g,
    {
        proof {
            assert(groups@.take(g + 1).drop_last() =~= groups@.take(g as int));
        }
        let label = groups[g].0;
        let members = &groups[g].1;
        let ghost before = text@;
        text.append("  Community ");
        let label_text = decimal_text(label);
        text.append(label_text.as_str());
        text.append(" (");
        let count_text = decimal_text(members.len());
        text.append(count_text.as_str());
        if members.len() == 1 {
            text.append(" member): ");
        } else {
            text.append(" members): ");
        }
        let names_text = join_names(members);
        text.append(names_text.as_str());
        text.append("\n");
        proof {
            assert(text@ =~= before + community_line(label, members@));
            assert(text@ =~= heading + community_lines(groups@.take(g + 1)));
        }
        g = g + 1;
    }
    text.append("\n");
    proof {
        assert(groups@.take(groups.len() as int) =~= groups@);
    }
    text
}

/// The overview line of the report: location count, pair count and number of
/// connected components, followed by a blank line.
pub fn overview_line(locations: usize, components: usize) -> (text: String)
    requires
        1 <= locations,
        locations * (locations - 1) <= usize::MAX,
    ensures
        text@ == "Locations: "@ + decimal(locations as nat) + "  |  Edges: "@
            + decimal(pair_count_spec(locations as nat)) + "  |  Connected components: "@
            + decimal(components as nat) + "\n\n"@,
{
    let mut text = String::from_str("Locations: ");
    let count = decimal_text(locations);
    text.append(count.as_str());
    text.append("  |  Edges: ");
    let pairs = decimal_text(location_pair_count(locations));
    text.append(pairs.as_str());
    text.append("  |  Connected components: ");
    let parts = decimal_text(components);
    text.append(parts.as_str());
    text.append("\n\n");
    text
}

} // verus!
