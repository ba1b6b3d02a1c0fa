//! Reading and writing of numbers and names.
use vstd::prelude::*;

verus! {

/// The last decimal digit of `n`.
pub open spec fn last_digit(n: nat) -> char {
    (0x30 + n % 10) as char
}

/// `n` in decimal digits.
pub open spec fn decimal(n: nat) -> Seq<char>
    decreases n,
{
    if n < 10 {
        seq![last_digit(n)]
    } else {
        decimal(n / 10).push(last_digit(n))
    }
}

/// Writes `n` in decimal digits.
pub fn write_number(n: u64) -> (r: String)
    ensures
        r@ == decimal(n as nat),
    decreases n,
{
    let digit: &str = match n % 10 {
        0 => "0",
        1 => "1",
        2 => "2",
        3 => "3",
        4 => "4",
        5 => "5",
        6 => "6",
        7 => "7",
        8 => "8",
        _ => "9",
    };
    proof {
        reveal_strlit("0");
        reveal_strlit("1");
        reveal_strlit("2");
        reveal_strlit("3");
        reveal_strlit("4");
        reveal_strlit("5");
        reveal_strlit("6");
        reveal_strlit("7");
        reveal_strlit("8");
        reveal_strlit("9");
        assert(digit@ =~= seq![last_digit(n as nat)]);
    }
    if n < 10 {
        return digit.to_owned();
    }
    let mut r = write_number(n / 10);
    r.append(digit);
    assert(r@ =~= decimal(n as nat));
    r
}

pub(crate) proof fn lemma_decimal_digits(n: nat)
    ensures
        decimal(n).len() > 0,
        forall|i: int| 0 <= i < decimal(n).len() ==> digit_value(#[trigger] decimal(n)[i]) is Some,
    decreases n,
{
    if n >= 10 {
        lemma_decimal_digits(n / 10);
    }
}

/// The characters of a text.
pub(crate) fn characters(text: &str) -> (r: Vec<char>)
    ensures
        r@ == text@,
{
    let n: usize = text.unicode_len();
    let mut r: Vec<char> = Vec::new();
    let mut i: usize = 0;
    while i < n
        invariant
            n == text@.len(),
            i <= n,
            r@ == text@.take(i as int),
        decreases n - i,
    {
        r.push(text.get_char(i));
        i = i + 1;
    }
    assert(text@.take(i as int) =~= text@);
    r
}

/// What a decimal digit stands for.
pub open spec fn digit_value(c: char) -> Option<int> {
    if '0' <= c <= '9' {
        Some(c as int - '0' as int)
    } else {
        None
    }
}

/// Why a text is no number.
#[derive(Clone, Copy, Debug, PartialEq, Eq, Structural)]
pub enum NumberFault {
    Empty,
    InvalidDigit,
    TooLarge,
}

/// The number that the digits from `i` on complete, where those before make
/// `acc`. The first character that is no digit, or with which the number gets
/// too large, decides.
pub open spec fn number_from(s: Seq<char>, i: int, acc: int) -> Result<int, NumberFault>
    decreases s.len() - i,
{
    if i >= s.len() {
        Ok(acc)
    } else {
        match digit_value(s[i]) {
            None => Err(NumberFault::InvalidDigit),
            Some(d) => if acc * 10 + d > usize::MAX {
                Err(NumberFault::TooLarge)
            } else {
                number_from(s, i + 1, acc * 10 + d)
            },
        }
    }
}

/// The number that a text stands for: digits, with or without a plus sign
/// before them.
pub open spec fn number_in(s: Seq<char>) -> Result<int, NumberFault> {
    if s.len() == 0 {
        Err(NumberFault::Empty)
    } else if s.len() == 1 && (s[0] == '+' || s[0] == '-') {
        Err(NumberFault::InvalidDigit)
    } else if s[0] == '+' {
        number_from(s, 1, 0)
    } else {
        number_from(s, 0, 0)
    }
}

/// A number that was read.
pub open spec fn read_as(r: Result<usize, NumberFault>) -> Result<int, NumberFault> {
    match r {
        Ok(n) => Ok(n as int),
        Err(e) => Err(e),
    }
}

/// Reads a number.
pub fn read_number(s: &Vec<char>) -> (r: Result<usize, NumberFault>)
    ensures
        read_as(r) == number_in(s@),
{
    if s.len() == 0 {
        return Err(NumberFault::Empty);
    }
    if s.len() == 1 && (s[0] == '+' || s[0] == '-') {
        return Err(NumberFault::InvalidDigit);
    }
    let mut i: usize = if s[0] == '+' {
        1
    } else {
        0
    };
    let mut acc: usize = 0;
    while i < s.len()
        invariant
            i <= s@.len(),
            number_in(s@) == number_from(s@, i as int, acc as int),
        decreases s@.len() - i,
    {
        let c: char = s[i];
        if !('0' <= c && c <= '9') {
            return Err(NumberFault::InvalidDigit);
        }
        let d: usize = (c as u32 - '0' as u32) as usize;
        match acc.checked_mul(10) {
            Some(m) => match m.checked_add(d) {
                Some(v) => {
                    acc = v;
                },
                None => {
                    return Err(NumberFault::TooLarge);
                },
            },
            None => {
                return Err(NumberFault::TooLarge);
            },
        }
        i = i + 1;
    }
    Ok(acc)
}

/// The text of the fault.
pub open spec fn fault_text(fault: NumberFault) -> Seq<char> {
    match fault {
        NumberFault::Empty => "cannot parse integer from empty string"@,
        NumberFault::InvalidDigit => "invalid digit found in string"@,
        NumberFault::TooLarge => "number too large to fit in target type"@,
    }
}

/// The text of the fault.
pub fn describe_fault(fault: NumberFault) -> (r: String)
    ensures
        r@ == fault_text(fault),
{
    match fault {
        NumberFault::Empty => "cannot parse integer from empty string".to_owned(),
        NumberFault::InvalidDigit => "invalid digit found in string".to_owned(),
        NumberFault::TooLarge => "number too large to fit in target type".to_owned(),
    }
}

proof fn lemma_number_from_decimal(s: Seq<char>, n: nat, k: int)
    requires
        n <= usize::MAX,
        s.take(k) == decimal(n),
        0 <= k <= s.len(),
    ensures
        number_from(s, 0, 0) == number_from(s, k, n as int),
    decreases n,
{
    let d = decimal(n);
    lemma_decimal_digits(n);
    if n < 10 {
        assert(k == 1);
        assert(s[0] == s.take(1)[0]);
        assert(digit_value(s[0]) == Some(n as int));
        reveal_with_fuel(number_from, 2);
    } else {
        assert(d.len() == k);
        assert(d.drop_last() =~= decimal(n / 10));
        assert(s.take(k - 1) =~= s.take(k).drop_last());
        lemma_number_from_decimal(s, n / 10, k - 1);
        assert(s[k - 1] == s.take(k)[k - 1]);
        assert(digit_value(s[k - 1]) == Some((n % 10) as int));
    }
}

/// A number that is written can be read again.
pub proof fn written_numbers_are_read(n: nat)
    requires
        n <= usize::MAX,
    ensures
        number_in(decimal(n)) == Ok::<int, NumberFault>(n as int),
{
    let s = decimal(n);
    lemma_decimal_digits(n);
    assert(digit_value(s[0]) is Some);
    assert(s.take(s.len() as int) =~= s);
    lemma_number_from_decimal(s, n, s.len() as int);
}

proof fn lemma_last_digit(m: nat, n: nat)
    ensures
        last_digit(m) == last_digit(n) ==> m % 10 == n % 10,
{
}

/// Different numbers are written differently.
pub proof fn numbers_are_written_differently(m: nat, n: nat)
    requires
        decimal(m) == decimal(n),
    ensures
        m == n,
    decreases m + n,
{
    lemma_decimal_digits(m);
    lemma_decimal_digits(n);
    if m < 10 {
        if n >= 10 {
            lemma_decimal_digits(n / 10);
            assert(decimal(n).len() == decimal(n / 10).len() + 1);
        } else {
            assert(decimal(m)[0] == last_digit(m));
            assert(decimal(n)[0] == last_digit(n));
            lemma_last_digit(m, n);
        }
    } else if n < 10 {
        lemma_decimal_digits(m / 10);
        assert(decimal(m).len() == decimal(m / 10).len() + 1);
    } else {
        assert(decimal(m).drop_last() =~= decimal(m / 10));
        assert(decimal(n).drop_last() =~= decimal(n / 10));
        assert(decimal(m).last() == last_digit(m));
        assert(decimal(n).last() == last_digit(n));
        lemma_last_digit(m, n);
        numbers_are_written_differently(m / 10, n / 10);
    }
}

/// White space.
pub open spec fn blank(c: char) -> bool {
    let n = c as u32;
    ||| 0x9 <= n <= 0xd
    ||| n == 0x20
    ||| n == 0x85
    ||| n == 0xa0
    ||| n == 0x1680
    ||| 0x2000 <= n <= 0x200a
    ||| n == 0x2028
    ||| n == 0x2029
    ||| n == 0x202f
    ||| n == 0x205f
    ||| n == 0x3000
}

/// Whether a character is white space.
pub fn is_blank(c: char) -> (r: bool)
    ensures
        r == blank(c),
{
    let n: u32 = c as u32;
    (0x9 <= n && n <= 0xd) || n == 0x20 || n == 0x85 || n == 0xa0 || n == 0x1680 || (0x2000 <= n
        && n <= 0x200a) || n == 0x2028 || n == 0x2029 || n == 0x202f || n == 0x205f || n == 0x3000
}

/// What stands between two numbers of a list.
pub open spec fn separates(c: char) -> bool {
    c == ',' || blank(c)
}

/// The words of a list, where `word` is the part of one that is read already.
pub open spec fn words_from(s: Seq<char>, word: Seq<char>) -> Seq<Seq<char>>
    decreases s.len(),
{
    let done = if word.len() > 0 {
        seq![word]
    } else {
        Seq::empty()
    };
    if s.len() == 0 {
        done
    } else if separates(s[0]) {
        done + words_from(s.drop_first(), Seq::empty())
    } else {
        words_from(s.drop_first(), word.push(s[0]))
    }
}

/// The words of a list that is separated by commas and white space.
pub open spec fn words(s: Seq<char>) -> Seq<Seq<char>> {
    words_from(s, Seq::empty())
}

/// The numbers that the words from `i` on stand for; the first word that is
/// none decides.
pub open spec fn numbers_from(list: Seq<Seq<char>>, i: int) -> Result<Seq<int>, NumberFault>
    decreases list.len() - i,
{
    if i >= list.len() {
        Ok(Seq::empty())
    } else {
        match number_in(list[i]) {
            Err(e) => Err(e),
            Ok(n) => match numbers_from(list, i + 1) {
                Err(e) => Err(e),
                Ok(rest) => Ok(seq![n] + rest),
            },
        }
    }
}

/// The numbers of a list.
pub open spec fn numbers_in(s: Seq<char>) -> Result<Seq<int>, NumberFault> {
    numbers_from(words(s), 0)
}

/// Numbers that were read.
pub open spec fn read_all(r: Result<Vec<usize>, NumberFault>) -> Result<Seq<int>, NumberFault> {
    match r {
        Ok(v) => Ok(v@.map_values(|n: usize| n as int)),
        Err(e) => Err(e),
    }
}

fn split_words(s: &Vec<char>) -> (r: Vec<Vec<char>>)
    ensures
        r@.len() == words(s@).len(),
        forall|i: int| 0 <= i < r@.len() ==> (#[trigger] r@[i])@ == words(s@)[i],
{
    let mut r: Vec<Vec<char>> = Vec::new();
    let mut word: Vec<char> = Vec::new();
    let mut i: usize = 0;
    let ghost mut seen: Seq<Seq<char>> = Seq::empty();
    proof {
        assert(s@.skip(0) =~= s@);
        assert(seen + words_from(s@, word@) =~= words(s@));
    }
    while i < s.len()
        invariant
            i <= s@.len(),
            words(s@) == seen + words_from(s@.skip(i as int), word@),
            r@.len() == seen.len(),
            forall|k: int| 0 <= k < r@.len() ==> (#[trigger] r@[k])@ == seen[k],
        decreases s@.len() - i,
    {
        let c: char = s[i];
        proof {
            assert(s@.skip(i as int)[0] == c);
            assert(s@.skip(i as int).drop_first() =~= s@.skip(i + 1));
        }
        if c == ',' || is_blank(c) {
            if word.len() > 0 {
                proof {
                    let rest = words_from(s@.skip(i + 1), Seq::empty());
                    assert(seen + (seq![word@] + rest) =~= seen.push(word@) + rest);
                    seen = seen.push(word@);
                }
                r.push(word);
                word = Vec::new();
            } else {
                proof {
                    let rest = words_from(s@.skip(i + 1), Seq::empty());
                    assert(Seq::<Seq<char>>::empty() + rest =~= rest);
                    assert(word@ =~= Seq::empty());
                }
            }
        } else {
            word.push(c);
        }
        i = i + 1;
    }
    proof {
        assert(s@.skip(i as int).len() == 0);
    }
    if word.len() > 0 {
        proof {
            assert(seen + seq![word@] =~= seen.push(word@));
            seen = seen.push(word@);
        }
        r.push(word);
    } else {
        assert(seen + Seq::<Seq<char>>::empty() =~= seen);
    }
    r
}

/// Reads the numbers of a list that is separated by commas and white space.
pub fn read_numbers(text: &str) -> (r: Result<Vec<usize>, NumberFault>)
    ensures
        read_all(r) == numbers_in(text@),
{
    let list = split_words(&characters(text));
    let ghost all = words(text@);
    let mut r: Vec<usize> = Vec::new();
    let mut i: usize = 0;
    let ghost mut done: Seq<int> = Seq::empty();
    proof {
        lemma_prefix_join(Seq::empty(), numbers_from(all, 0));
    }
    while i < list.len()
        invariant
            all == words(text@),
            list@.len() == all.len(),
            forall|k: int| 0 <= k < list@.len() ==> (#[trigger] list@[k])@ == all[k],
            i <= list@.len(),
            done == r@.map_values(|n: usize| n as int),
            numbers_in(text@) == joined(done, numbers_from(all, i as int)),
        decreases list@.len() - i,
    {
        match read_number(&list[i]) {
            Ok(n) => {
                proof {
                    let rest = numbers_from(all, i + 1);
                    if rest is Ok {
                        assert(done + (seq![n as int] + rest->Ok_0) =~= done.push(n as int)
                            + rest->Ok_0);
                    }
                    done = done.push(n as int);
                }
                r.push(n);
                assert(done =~= r@.map_values(|n: usize| n as int));
            },
            Err(e) => {
                return Err(e);
            },
        }
        i = i + 1;
    }
    assert(done + Seq::<int>::empty() =~= done);
    Ok(r)
}

spec fn joined(done: Seq<int>, rest: Result<Seq<int>, NumberFault>) -> Result<Seq<int>, NumberFault> {
    match rest {
        Ok(v) => Ok(done + v),
        Err(e) => Err(e),
    }
}

proof fn lemma_prefix_join(done: Seq<int>, rest: Result<Seq<int>, NumberFault>)
    requires
        done.len() == 0,
    ensures
        joined(done, rest) == rest,
{
    if rest is Ok {
        assert(done + rest->Ok_0 =~= rest->Ok_0);
    }
}

/// The code of a letter regardless of its case, where a dash counts as an
/// underscore.
pub open spec fn folded(c: char) -> u32 {
    if 'A' <= c <= 'Z' {
        (c as u32 + 32) as u32
    } else if c == '-' {
        '_' as u32
    } else {
        c as u32
    }
}

/// The text is the name, regardless of case and of dashes for underscores.
pub open spec fn names(s: Seq<char>, name: Seq<char>) -> bool {
    &&& s.len() == name.len()
    &&& forall|i: int| 0 <= i < s.len() ==> folded(#[trigger] s[i]) == name[i] as u32
}

/// Whether the text is the name, regardless of case and of dashes for
/// underscores.
pub fn is_name(text: &Vec<char>, name: &str) -> (r: bool)
    ensures
        r == names(text@, name@),
{
    let n: usize = name.unicode_len();
    if text.len() != n {
        return false;
    }
    let mut i: usize = 0;
    while i < n
        invariant
            n == name@.len(),
            n == text@.len(),
            i <= n,
            forall|k: int| 0 <= k < i ==> folded(#[trigger] text@[k]) == name@[k] as u32,
        decreases n - i,
    {
        let c: char = text[i];
        let code: u32 = if 'A' <= c && c <= 'Z' {
            c as u32 + 32
        } else if c == '-' {
            '_' as u32
        } else {
            c as u32
        };
        if code != name.get_char(i) as u32 {
            assert(folded(text@[i as int]) != name@[i as int] as u32);
            return false;
        }
        i = i + 1;
    }
    true
}

/// The text is nothing but white space.
pub open spec fn all_blank(s: Seq<char>) -> bool {
    forall|i: int| 0 <= i < s.len() ==> blank(#[trigger] s[i])
}

/// The text is the letter of this code, regardless of its case, with white space
/// around it.
pub open spec fn lone_letter(s: Seq<char>, code: u32) -> bool {
    exists|k: int|
        {
            &&& 0 <= k < s.len()
            &&& folded(#[trigger] s[k]) == code
            &&& forall|i: int| 0 <= i < s.len() && i != k ==> blank(#[trigger] s[i])
        }
}

/// What was answered to a question with a default.
#[derive(Clone, Copy, Debug, PartialEq, Eq, Structural)]
pub enum Answer {
    Yes,
    No,
    Other,
}

/// Nothing and `y` mean yes, `n` means no.
pub open spec fn answer_in(s: Seq<char>) -> Answer {
    if all_blank(s) || lone_letter(s, 0x79) {
        Answer::Yes
    } else if lone_letter(s, 0x6e) {
        Answer::No
    } else {
        Answer::Other
    }
}

proof fn lemma_folded(c: char)
    ensures
        folded(c) == 0x79 <==> (c == 'y' || c == 'Y'),
        folded(c) == 0x6e <==> (c == 'n' || c == 'N'),
{
}

/// Reads the answer to a question with a default.
pub fn read_answer(text: &str) -> (r: Answer)
    ensures
        r == answer_in(text@),
{
    let s = characters(text);
    let mut i: usize = 0;
    while i < s.len() && is_blank(s[i])
        invariant
            i <= s@.len(),
            forall|k: int| 0 <= k < i ==> blank(#[trigger] s@[k]),
        ensures
            i <= s@.len(),
            forall|k: int| 0 <= k < i ==> blank(#[trigger] s@[k]),
            i < s@.len() ==> !blank(s@[i as int]),
        decreases s@.len() - i,
    {
        i = i + 1;
    }
    if i == s.len() {
        return Answer::Yes;
    }
    let first: usize = i;
    i = i + 1;
    while i < s.len() && is_blank(s[i])
        invariant
            first < i <= s@.len(),
            forall|k: int| first < k < i ==> blank(#[trigger] s@[k]),
        ensures
            first < i <= s@.len(),
            forall|k: int| first < k < i ==> blank(#[trigger] s@[k]),
            i < s@.len() ==> !blank(s@[i as int]),
        decreases s@.len() - i,
    {
        i = i + 1;
    }
    let c: char = s[first];
    let ghost f = first as int;
    proof {
        assert(!blank(s@[f]));
        assert forall|code: u32| lone_letter(s@, code) implies i == s@.len() && folded(s@[f])
            == code by {
            let k = choose|k: int|
                {
                    &&& 0 <= k < s@.len()
                    &&& folded(#[trigger] s@[k]) == code
                    &&& forall|j: int| 0 <= j < s@.len() && j != k ==> blank(#[trigger] s@[j])
                };
            if k != f {
                assert(blank(s@[f]));
            }
            if i < s@.len() {
                assert(blank(s@[i as int]));
            }
        }
        if i == s@.len() {
            if folded(s@[f]) == 0x79 {
                assert(lone_letter(s@, 0x79));
            }
            if folded(s@[f]) == 0x6e {
                assert(lone_letter(s@, 0x6e));
            }
        }
    }
    proof {
        assert(!all_blank(s@));
        lemma_folded(c);
        assert(lone_letter(s@, 0x79) <==> i == s@.len() && (c == 'y' || c == 'Y'));
        assert(lone_letter(s@, 0x6e) <==> i == s@.len() && (c == 'n' || c == 'N'));
    }
    if i < s.len() {
        Answer::Other
    } else if c == 'y' || c == 'Y' {
        Answer::Yes
    } else if c == 'n' || c == 'N' {
        Answer::No
    } else {
        Answer::Other
    }
}

/// The numbers in decimal digits with commas between them.
pub open spec fn listed(numbers: Seq<usize>) -> Seq<char>
    decreases numbers.len(),
{
    if numbers.len() == 0 {
        Seq::empty()
    } else if numbers.len() == 1 {
        decimal(numbers[0] as nat)
    } else {
        decimal(numbers[0] as nat) + seq![','] + listed(numbers.drop_first())
    }
}

/// Writes numbers with commas between them.
pub fn write_numbers(numbers: &Vec<usize>) -> (r: String)
    ensures
        r@ == listed(numbers@),
{
    let mut r: String = String::new();
    let n: usize = numbers.len();
    if n == 0 {
        assert(r@ =~= listed(numbers@));
        return r;
    }
    r = write_number(numbers[n - 1] as u64);
    let mut i: usize = n - 1;
    proof {
        assert(numbers@.skip(n - 1) =~= seq![numbers@[n - 1]]);
        reveal_strlit(",");
    }
    while i > 0
        invariant
            n == numbers@.len(),
            0 <= i < n,
            r@ == listed(numbers@.skip(i as int)),
        decreases i,
    {
        let mut head = write_number(numbers[i - 1] as u64);
        head.append(",");
        head.append(r.as_str());
        proof {
            reveal_strlit(",");
            let t = numbers@.skip(i - 1);
            assert(t.drop_first() =~= numbers@.skip(i as int));
            assert(head@ =~= listed(t));
        }
        r = head;
        i = i - 1;
    }
    assert(numbers@.skip(0) =~= numbers@);
    r
}

/// Reading a word without separators.
proof fn lemma_words_of_word(s: Seq<char>, word: Seq<char>, k: int)
    requires
        0 <= k <= s.len(),
        forall|i: int| 0 <= i < k ==> !separates(#[trigger] s[i]),
    ensures
        words_from(s, word) == words_from(s.skip(k), word + s.take(k)),
    decreases k,
{
    if k == 0 {
        assert(s.skip(0) =~= s);
        assert(word + s.take(0) =~= word);
    } else {
        let t = s.drop_first();
        assert forall|i: int| 0 <= i < k - 1 implies !separates(#[trigger] t[i]) by {
            assert(t[i] == s[i + 1]);
        }
        assert(!separates(s[0]));
        lemma_words_of_word(t, word.push(s[0]), k - 1);
        assert(t.skip(k - 1) =~= s.skip(k));
        assert(word.push(s[0]) + t.take(k - 1) =~= word + s.take(k));
    }
}

proof fn lemma_digit_separates(c: char)
    requires
        digit_value(c) is Some,
    ensures
        !separates(c),
{
}

proof fn lemma_words_listed(numbers: Seq<usize>)
    ensures
        words(listed(numbers)).len() == numbers.len(),
        forall|i: int|
            0 <= i < numbers.len() ==> #[trigger] words(listed(numbers))[i] == decimal(
                numbers[i] as nat,
            ),
    decreases numbers.len(),
{
    if numbers.len() > 0 {
        let s = listed(numbers);
        let d = decimal(numbers[0] as nat);
        let k = d.len() as int;
        lemma_decimal_digits(numbers[0] as nat);
        assert(s.take(k) =~= d);
        assert forall|i: int| 0 <= i < k implies !separates(#[trigger] s[i]) by {
            assert(s[i] == d[i]);
            lemma_digit_separates(d[i]);
        }
        lemma_words_of_word(s, Seq::empty(), k);
        assert(Seq::<char>::empty() + s.take(k) =~= d);
        if numbers.len() == 1 {
            assert(s.skip(k).len() == 0);
            assert(words(s) =~= seq![d]);
        } else {
            let rest = numbers.drop_first();
            lemma_words_listed(rest);
            let t = s.skip(k);
            assert(t[0] == ',');
            assert(t.drop_first() =~= listed(rest));
            assert(words(s) == seq![d] + words(listed(rest)));
            assert forall|i: int| 0 <= i < numbers.len() implies #[trigger] words(s)[i] == decimal(
                numbers[i] as nat,
            ) by {
                if i > 0 {
                    assert(words(listed(rest))[i - 1] == decimal(rest[i - 1] as nat));
                }
            }
        }
    } else {
        assert(listed(numbers) =~= Seq::empty());
        assert(words(listed(numbers)) =~= Seq::empty());
    }
}

proof fn lemma_numbers_listed(numbers: Seq<usize>, list: Seq<Seq<char>>, i: int)
    requires
        list.len() == numbers.len(),
        forall|k: int| 0 <= k < numbers.len() ==> #[trigger] list[k] == decimal(numbers[k] as nat),
        0 <= i <= list.len(),
    ensures
        numbers_from(list, i) == Ok::<Seq<int>, NumberFault>(
            numbers.skip(i).map_values(|n: usize| n as int),
        ),
    decreases list.len() - i,
{
    let goal = numbers.skip(i).map_values(|n: usize| n as int);
    if i < list.len() {
        lemma_numbers_listed(numbers, list, i + 1);
        assert(list[i] == decimal(numbers[i] as nat));
        written_numbers_are_read(numbers[i] as nat);
        let rest = numbers.skip(i + 1).map_values(|n: usize| n as int);
        assert(seq![numbers[i] as int] + rest =~= goal);
    } else {
        assert(goal =~= Seq::empty());
    }
}

/// A list of numbers that is written can be read again.
pub proof fn written_lists_are_read(numbers: Seq<usize>)
    ensures
        numbers_in(listed(numbers)) == Ok::<Seq<int>, NumberFault>(
            numbers.map_values(|n: usize| n as int),
        ),
{
    lemma_words_listed(numbers);
    lemma_numbers_listed(numbers, words(listed(numbers)), 0);
    assert(numbers.skip(0) =~= numbers);
}

/// One more digit makes ten times the number and the digit, or a number that is
/// too large. Anything else is no digit. What is wrong already stays so.
pub proof fn digits_count_tenfold(s: Seq<char>, c: char)
    requires
        s.len() > 0,
        !(s.len() == 1 && (s[0] == '+' || s[0] == '-')),
    ensures
        number_in(s) is Err ==> number_in(s.push(c)) == number_in(s),
        number_in(s) matches Ok(n) ==> number_in(s.push(c)) == (if '0' <= c <= '9' {
            let more = 10 * n + (c as int - 0x30);
            if more <= usize::MAX {
                Ok(more)
            } else {
                Err(NumberFault::TooLarge)
            }
        } else {
            Err(NumberFault::InvalidDigit)
        }),
{
    assert(s.push(c)[0] == s[0]);
    if s[0] == '+' {
        lemma_one_more(s, c, 1, 0);
    } else {
        lemma_one_more(s, c, 0, 0);
    }
}

proof fn lemma_one_more(s: Seq<char>, c: char, i: int, acc: int)
    requires
        0 <= i <= s.len(),
    ensures
        number_from(s.push(c), i, acc) == (match number_from(s, i, acc) {
            Err(e) => Err(e),
            Ok(n) => match digit_value(c) {
                None => Err(NumberFault::InvalidDigit),
                Some(d) => if n * 10 + d > usize::MAX {
                    Err(NumberFault::TooLarge)
                } else {
                    Ok(n * 10 + d)
                },
            },
        }),
    decreases s.len() - i,
{
    let t = s.push(c);
    if i < s.len() {
        assert(t[i] == s[i]);
        if let Some(d) = digit_value(s[i]) {
            if acc * 10 + d <= usize::MAX {
                lemma_one_more(s, c, i + 1, acc * 10 + d);
            }
        }
    } else {
        assert(t[i] == c);
        reveal_with_fuel(number_from, 2);
    }
}

/// A single digit is its number; nothing else of one character is a number, and
/// nothing at all is none. A plus sign before digits says nothing.
pub proof fn single_digits_are_numbers(c: char, s: Seq<char>)
    ensures
        number_in(Seq::<char>::empty()) == Err::<int, NumberFault>(NumberFault::Empty),
        number_in(seq![c]) == (if '0' <= c <= '9' {
            Ok(c as int - 0x30)
        } else {
            Err(NumberFault::InvalidDigit)
        }),
        s.len() > 0 && '0' <= s[0] <= '9' ==> number_in(seq!['+'] + s) == number_in(s),
{
    let one = seq![c];
    assert(one.len() == 1 && one[0] == c);
    reveal_with_fuel(number_from, 2);
    if s.len() > 0 && '0' <= s[0] <= '9' {
        let t = seq!['+'] + s;
        assert(t[0] == '+');
        lemma_shifted(s, 0, 0);
    }
}

proof fn lemma_shifted(s: Seq<char>, i: int, acc: int)
    requires
        0 <= i <= s.len(),
    ensures
        number_from(seq!['+'] + s, i + 1, acc) == number_from(s, i, acc),
    decreases s.len() - i,
{
    let t = seq!['+'] + s;
    if i < s.len() {
        assert(t[i + 1] == s[i]);
        if let Some(d) = digit_value(s[i]) {
            if acc * 10 + d <= usize::MAX {
                lemma_shifted(s, i + 1, acc * 10 + d);
            }
        }
    }
}

/// A comma or white space divides a list: the words before it come first, and
/// none goes on behind it.
pub proof fn separators_divide_lists(a: Seq<char>, c: char, b: Seq<char>)
    requires
        c == ',' || blank(c),
    ensures
        words(a + seq![c] + b) == words(a) + words(b),
{
    lemma_divided(a, c, b, Seq::empty());
}

proof fn lemma_divided(a: Seq<char>, c: char, b: Seq<char>, word: Seq<char>)
    requires
        separates(c),
    ensures
        words_from(a + seq![c] + b, word) == words_from(a, word) + words(b),
    decreases a.len(),
{
    let s = a + seq![c] + b;
    if a.len() == 0 {
        assert(s[0] == c);
        assert(s.drop_first() =~= b);
    } else {
        assert(s[0] == a[0]);
        assert(s.drop_first() =~= a.drop_first() + seq![c] + b);
        if separates(a[0]) {
            lemma_divided(a.drop_first(), c, b, Seq::empty());
            let done = if word.len() > 0 {
                seq![word]
            } else {
                Seq::empty()
            };
            let rest = words_from(a.drop_first(), Seq::empty());
            assert(done + (rest + words(b)) =~= (done + rest) + words(b));
        } else {
            lemma_divided(a.drop_first(), c, b, word.push(a[0]));
        }
    }
}

/// What holds no separator is one word, and nothing is none.
pub proof fn words_stand_alone(s: Seq<char>)
    requires
        forall|i: int| 0 <= i < s.len() ==> (#[trigger] s[i]) != ',' && !blank(s[i]),
    ensures
        s.len() > 0 ==> words(s) == seq![s],
        s.len() == 0 ==> words(s) == Seq::<Seq<char>>::empty(),
{
    assert forall|i: int| 0 <= i < s.len() implies !separates(#[trigger] s[i]) by {}
    lemma_words_of_word(s, Seq::empty(), s.len() as int);
    assert(s.skip(s.len() as int).len() == 0);
    assert(Seq::<char>::empty() + s.take(s.len() as int) =~= s);
}

/// A list is read where every word of it is a number, and gives these numbers in
/// their order.
pub proof fn lists_are_read_word_by_word(s: Seq<char>, k: int)
    requires
        0 <= k < words(s).len(),
    ensures
        numbers_in(s) is Ok ==> number_in(words(s)[k]) is Ok && numbers_in(s)->Ok_0.len()
            == words(s).len() && numbers_in(s)->Ok_0[k] == number_in(words(s)[k])->Ok_0,
        numbers_in(s) is Err ==> exists|i: int|
            0 <= i < words(s).len() && number_in(#[trigger] words(s)[i]) == Err::<
                int,
                NumberFault,
            >(numbers_in(s)->Err_0) && forall|j: int|
                0 <= j < i ==> number_in(#[trigger] words(s)[j]) is Ok,
{
    let list = words(s);
    lemma_word_by_word(list, 0, k);
    if numbers_in(s) is Err {
        let i = lemma_first_fault(list, 0);
        assert(number_in(words(s)[i]) == Err::<int, NumberFault>(numbers_in(s)->Err_0));
    }
}

proof fn lemma_word_by_word(list: Seq<Seq<char>>, i: int, k: int)
    requires
        0 <= i <= k < list.len(),
    ensures
        numbers_from(list, i) is Ok ==> number_in(list[k]) is Ok && numbers_from(
            list,
            i,
        )->Ok_0.len() == list.len() - i && numbers_from(list, i)->Ok_0[k - i] == number_in(
            list[k],
        )->Ok_0,
    decreases list.len() - i,
{
    if numbers_from(list, i) is Ok {
        if i + 1 < list.len() {
            lemma_word_by_word(
                list,
                i + 1,
                if k > i {
                    k
                } else {
                    i + 1
                },
            );
        } else {
            reveal_with_fuel(numbers_from, 2);
        }
    }
}

proof fn lemma_first_fault(list: Seq<Seq<char>>, i: int) -> (k: int)
    requires
        0 <= i <= list.len(),
        numbers_from(list, i) is Err,
    ensures
        i <= k < list.len(),
        number_in(list[k]) == Err::<int, NumberFault>(numbers_from(list, i)->Err_0),
        forall|j: int| i <= j < k ==> number_in(#[trigger] list[j]) is Ok,
    decreases list.len() - i,
{
    if number_in(list[i]) is Err {
        i
    } else {
        let k = lemma_first_fault(list, i + 1);
        assert forall|j: int| i <= j < k implies number_in(#[trigger] list[j]) is Ok by {}
        k
    }
}

proof fn lemma_folded_to(c: char, n: char)
    requires
        n == '_' || 'a' <= n <= 'z',
    ensures
        folded(c) == n as u32 <==> c == n || (n == '_' && c == '-') || (n != '_' && c as u32 + 32
            == n as u32),
{
    if n == '_' {
        assert(folded(c) == n as u32 <==> c == n || c == '-');
    } else {
        assert(folded(c) == n as u32 <==> c == n || c as u32 + 32 == n as u32);
    }
}

/// A text is a name of small letters and underscores exactly where every letter
/// is that letter or its capital, and every underscore that or a dash.
pub proof fn names_are_met_in_any_case(s: Seq<char>, name: Seq<char>)
    requires
        forall|i: int|
            0 <= i < name.len() ==> (#[trigger] name[i]) == '_' || 'a' <= name[i] <= 'z',
    ensures
        names(s, name) <==> s.len() == name.len() && forall|i: int|
            #![trigger s[i]]
            0 <= i < s.len() ==> s[i] == name[i] || (name[i] == '_' && s[i] == '-') || (name[i]
                != '_' && s[i] as u32 + 32 == name[i] as u32),
{
    if s.len() == name.len() {
        assert forall|i: int| #![trigger s[i]] 0 <= i < s.len() implies (folded(s[i])
            == name[i] as u32 <==> s[i] == name[i] || (name[i] == '_' && s[i] == '-') || (name[i]
            != '_' && s[i] as u32 + 32 == name[i] as u32)) by {
            assert(name[i] == '_' || 'a' <= name[i] <= 'z');
            lemma_folded_to(s[i], name[i]);
        }
        if names(s, name) {
            assert forall|i: int| #![trigger s[i]] 0 <= i < s.len() implies s[i] == name[i] || (
            name[i] == '_' && s[i] == '-') || (name[i] != '_' && s[i] as u32 + 32
                == name[i] as u32) by {
                assert(folded(s[i]) == name[i] as u32);
            }
        }
    }
}

/// An answer is yes where nothing was typed or a lone `y`, no where a lone `n`
/// was, in either case and with whatever white space around it; everything else
/// is neither.
pub proof fn answers_are_single_letters(a: Seq<char>, c: char, b: Seq<char>)
    requires
        forall|i: int| 0 <= i < a.len() ==> blank(#[trigger] a[i]),
        !blank(c),
    ensures
        answer_in(a) == Answer::Yes,
        ({
            let s = a + seq![c] + b;
            let alone = forall|i: int| 0 <= i < b.len() ==> blank(#[trigger] b[i]);
            &&& answer_in(s) == Answer::Yes <==> alone && (c == 'y' || c == 'Y')
            &&& answer_in(s) == Answer::No <==> alone && (c == 'n' || c == 'N')
        }),
{
    let s = a + seq![c] + b;
    let k = a.len() as int;
    let alone = forall|i: int| 0 <= i < b.len() ==> blank(#[trigger] b[i]);
    assert(s[k] == c);
    assert(!all_blank(s)) by {
        assert(!blank(s[k]));
    }
    lemma_folded(c);
    assert forall|code: u32| #[trigger] lone_letter(s, code) <==> alone && folded(c) == code by {
        if lone_letter(s, code) {
            let m = choose|m: int|
                {
                    &&& 0 <= m < s.len()
                    &&& folded(#[trigger] s[m]) == code
                    &&& forall|i: int| 0 <= i < s.len() && i != m ==> blank(#[trigger] s[i])
                };
            if m != k {
                assert(blank(s[k]));
            }
            assert forall|i: int| 0 <= i < b.len() implies blank(#[trigger] b[i]) by {
                assert(s[k + 1 + i] == b[i]);
                assert(blank(s[k + 1 + i]));
            }
        }
        if alone && folded(c) == code {
            assert forall|i: int| 0 <= i < s.len() && i != k implies blank(#[trigger] s[i]) by {
                if i < k {
                    assert(s[i] == a[i]);
                } else {
                    assert(s[i] == b[i - k - 1]);
                }
            }
            assert(folded(s[k]) == code);
        }
    }
    assert(lone_letter(s, 0x79) <==> alone && folded(c) == 0x79);
    assert(lone_letter(s, 0x6e) <==> alone && folded(c) == 0x6e);
}

/// A number above zero is written without zeros before it, and one digit more
/// makes it at least ten times as large.
pub proof fn numbers_have_no_leading_zeros(n: nat)
    ensures
        n > 0 ==> decimal(n)[0] != '0',
        n < 10 ==> decimal(n).len() == 1,
        n >= 10 ==> decimal(n).len() == decimal(n / 10).len() + 1,
    decreases n,
{
    lemma_decimal_digits(n);
    if n >= 10 {
        numbers_have_no_leading_zeros(n / 10);
        lemma_decimal_digits(n / 10);
        assert(decimal(n)[0] == decimal(n / 10)[0]);
    }
}

/// White space is what Unicode counts as such.
pub proof fn white_space_is_that_of_unicode(c: char)
    ensures
        blank(c) <==> match c {
            '\t' | '\n' | '\u{b}' | '\u{c}' | '\r' | ' ' | '\u{85}' | '\u{a0}' | '\u{1680}'
            | '\u{2000}' | '\u{2001}' | '\u{2002}' | '\u{2003}' | '\u{2004}' | '\u{2005}'
            | '\u{2006}' | '\u{2007}' | '\u{2008}' | '\u{2009}' | '\u{200a}' | '\u{2028}'
            | '\u{2029}' | '\u{202f}' | '\u{205f}' | '\u{3000}' => true,
            _ => false,
        },
{
}

/// A list is written with the first number before the comma and the others, in
/// the same way, behind it.
pub proof fn lists_are_written_number_by_number(first: usize, others: Seq<usize>)
    ensures
        listed(Seq::<usize>::empty()) == Seq::<char>::empty(),
        listed(seq![first]) == decimal(first as nat),
        others.len() > 0 ==> listed(seq![first] + others) == decimal(first as nat) + seq![',']
            + listed(others),
{
    let all = seq![first] + others;
    assert(all.drop_first() =~= others);
    assert(all[0] == first);
    let one = seq![first];
    assert(one.len() == 1 && one[0] == first);
}

} // verus!
