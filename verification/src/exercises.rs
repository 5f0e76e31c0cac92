//! Small exercises: number analysis, a guessing game and a student record.
use vstd::prelude::*;

verus! {

broadcast use vstd::string::group_string_axioms;

/// Whether `n` is even.
pub fn is_even(n: i32) -> (r: bool)
    ensures
        r == (n % 2 == 0),
{
    n % 2 == 0
}

/// Compares a guess with the secret: 0 when it is right, 1 when it is too
/// high, -1 when it is too low.
pub fn check_guess(guess: i32, secret: i32) -> (r: i32)
    ensures
        r == (if guess == secret {
            0
        } else if guess > secret {
            1
        } else {
            -1
        }),
{
    if guess == secret {
        0
    } else if guess > secret {
        1
    } else {
        -1
    }
}

/// How a number is described.
#[derive(Debug, Clone, Copy, PartialEq, Eq, Structural)]
pub enum NumberKind {
    FizzBuzz,
    Fizz,
    Buzz,
    Even,
    Odd,
}

/// The description of `n`: `FizzBuzz` for multiples of 3 and 5, `Fizz`
/// for other multiples of 3, `Buzz` for other multiples of 5, else `Even`
/// or `Odd`.
pub open spec fn number_kind(n: int) -> NumberKind {
    if n % 3 == 0 && n % 5 == 0 {
        NumberKind::FizzBuzz
    } else if n % 3 == 0 {
        NumberKind::Fizz
    } else if n % 5 == 0 {
        NumberKind::Buzz
    } else if n % 2 == 0 {
        NumberKind::Even
    } else {
        NumberKind::Odd
    }
}

/// Describes `n`.
pub fn classify_number(n: i32) -> (k: NumberKind)
    ensures
        k == number_kind(n as int),
{
    if n % 3 == 0 && n % 5 == 0 {
        NumberKind::FizzBuzz
    } else if n % 3 == 0 {
        NumberKind::Fizz
    } else if n % 5 == 0 {
        NumberKind::Buzz
    } else if is_even(n) {
        NumberKind::Even
    } else {
        NumberKind::Odd
    }
}

/// The sum of a sequence of numbers.
pub open spec fn sum_of(s: Seq<i32>) -> int
    decreases s.len(),
{
    if s.len() == 0 {
        0
    } else {
        sum_of(s.drop_last()) + s.last()
    }
}

/// Every running sum of `s` fits in an `i32`.
pub open spec fn sums_fit(s: Seq<i32>) -> bool {
    forall|k: int| 0 <= k <= s.len() ==> i32::MIN <= #[trigger] sum_of(s.take(k)) <= i32::MAX
}

/// The sum of `numbers`, added from the first on; every running sum must
/// fit in an `i32`.
pub fn sum_numbers(numbers: &[i32]) -> (sum: i32)
    requires
        sums_fit(numbers@),
    ensures
        sum == sum_of(numbers@),
{
    let mut sum: i32 = 0;
    let mut i: usize = 0;
    assert(numbers@.take(0) == Seq::<i32>::empty());
    while i < numbers.len()
        invariant
            i <= numbers@.len(),
            sums_fit(numbers@),
            sum == sum_of(numbers@.take(i as int)),
        decreases numbers@.len() - i,
    {
        assert(numbers@.take(i + 1).drop_last() == numbers@.take(i as int));
        assert(i32::MIN <= sum_of(numbers@.take(i + 1)) <= i32::MAX);
        sum = sum + numbers[i];
        i = i + 1;
    }
    assert(numbers@.take(numbers@.len() as int) == numbers@);
    sum
}

/// The largest of `numbers`, which must not be empty.
pub fn largest_number(numbers: &[i32]) -> (max: i32)
    requires
        numbers@.len() > 0,
    ensures
        exists|i: int| 0 <= i < numbers@.len() && numbers@[i] == max,
        forall|i: int| 0 <= i < numbers@.len() ==> numbers@[i] <= max,
{
    let mut max = numbers[0];
    let mut j: usize = 0;
    while j < numbers.len()
        invariant
            j <= numbers@.len(),
            exists|i: int| 0 <= i < numbers@.len() && numbers@[i] == max,
            forall|i: int| 0 <= i < j ==> numbers@[i] <= max,
            numbers@[0] <= max,
        decreases numbers@.len() - j,
    {
        if numbers[j] > max {
            max = numbers[j];
        }
        j = j + 1;
    }
    max
}

/// What the number analysis reports of a list of numbers.
pub struct NumberReport {
    /// The description of each number, in order.
    pub kinds: Vec<NumberKind>,
    pub sum: i32,
    pub largest: i32,
}

/// Describes each number, and gives the sum and the largest number.
pub fn analyze_numbers(numbers: &[i32]) -> (r: NumberReport)
    requires
        numbers@.len() > 0,
        sums_fit(numbers@),
    ensures
        r.kinds@.len() == numbers@.len(),
        forall|i: int| 0 <= i < numbers@.len() ==> r.kinds@[i] == number_kind(numbers@[i] as int),
        r.sum == sum_of(numbers@),
        exists|i: int| 0 <= i < numbers@.len() && numbers@[i] == r.largest,
        forall|i: int| 0 <= i < numbers@.len() ==> numbers@[i] <= r.largest,
{
    let mut kinds: Vec<NumberKind> = Vec::new();
    let mut i: usize = 0;
    while i < numbers.len()
        invariant
            i <= numbers@.len(),
            kinds@.len() == i,
            forall|k: int| 0 <= k < i ==> kinds@[k] == number_kind(numbers@[k] as int),
        decreases numbers@.len() - i,
    {
        kinds.push(classify_number(numbers[i]));
        i = i + 1;
    }
    let sum = sum_numbers(numbers);
    let largest = largest_number(numbers);
    NumberReport { kinds, sum, largest }
}

/// The distance between two numbers.
pub open spec fn distance(a: int, b: int) -> int {
    if a <= b {
        b - a
    } else {
        a - b
    }
}

/// The guess made at attempt `k` (from 0): one step closer to the secret
/// after each wrong guess.
pub open spec fn guess_at(start: int, secret: int, k: int) -> int {
    if start <= secret {
        start + k
    } else {
        start - k
    }
}

/// Plays the guessing game from a first guess: after a guess that is too
/// high the next one is one lower, after one that is too low it is one
/// higher, until the secret is guessed. Returns the guesses in order; the
/// number of attempts is their number, which must fit in an `i32`.
pub fn guessing_game(start: i32, secret: i32) -> (guesses: Vec<i32>)
    requires
        distance(start as int, secret as int) < i32::MAX,
    ensures
        guesses@.len() == distance(start as int, secret as int) + 1,
        forall|k: int|
            0 <= k < guesses@.len() ==> guesses@[k] == guess_at(start as int, secret as int, k),
        guesses@.last() == secret,
        forall|k: int| 0 <= k < guesses@.len() - 1 ==> guesses@[k] != secret,
{
    let mut guesses: Vec<i32> = Vec::new();
    let mut guess = start;
    let mut attempts: i32 = 0;
    loop
        invariant_except_break
            distance(start as int, guess as int) == guesses@.len(),
            start <= secret ==> start <= guess <= secret,
            start > secret ==> secret <= guess <= start,
            guess == guess_at(start as int, secret as int, guesses@.len() as int),
            forall|k: int| 0 <= k < guesses@.len() ==> guesses@[k] != secret,
        invariant
            attempts as int == guesses@.len(),
            distance(start as int, secret as int) < i32::MAX,
            forall|k: int|
                0 <= k < guesses@.len() ==> guesses@[k] == guess_at(
                    start as int,
                    secret as int,
                    k,
                ),
        ensures
            guesses@.len() == distance(start as int, secret as int) + 1,
            guesses@.last() == secret,
            forall|k: int| 0 <= k < guesses@.len() - 1 ==> guesses@[k] != secret,
        decreases distance(guess as int, secret as int),
    {
        attempts = attempts + 1;
        guesses.push(guess);
        let result = check_guess(guess, secret);
        if result == 0 {
            break ;
        } else if result == 1 {
            guess = guess - 1;
        } else {
            guess = guess + 1;
        }
    }
    guesses
}

/// A student and their major.
#[derive(Debug, Clone)]
pub struct Student {
    name: String,
    major: String,
}

impl Student {
    /// The student's name.
    pub closed spec fn spec_name(&self) -> Seq<char> {
        self.name@
    }

    /// The student's major.
    pub closed spec fn spec_major(&self) -> Seq<char> {
        self.major@
    }

    /// A student with the given name and major.
    pub fn new(name: &str, major: &str) -> (s: Self)
        ensures
            s.spec_name() == name@,
            s.spec_major() == major@,
    {
        Student { name: name.to_string(), major: major.to_string() }
    }

    /// Changes the student's major.
    pub fn set_major(&mut self, new_major: &str)
        ensures
            final(self).spec_major() == new_major@,
            final(self).spec_name() == old(self).spec_name(),
    {
        self.major = new_major.to_string();
    }

    /// The student's major.
    pub fn get_major(&self) -> (r: &str)
        ensures
            r@ == self.spec_major(),
    {
        self.major.as_str()
    }

    /// The student's name.
    pub fn get_name(&self) -> (r: &str)
        ensures
            r@ == self.spec_name(),
    {
        self.name.as_str()
    }
}

/// A number that is a multiple of neither 3 nor 5 is described as even
/// exactly when it is even, and as odd otherwise, negative numbers
/// included.
pub proof fn lemma_number_kind_parity(n: int)
    requires
        n % 3 != 0,
        n % 5 != 0,
    ensures
        (number_kind(n) == NumberKind::Even) == (n % 2 == 0),
        (number_kind(n) == NumberKind::Odd) == (n % 2 != 0),
{
}

/// Descriptions repeat every 30 numbers, across zero too.
pub proof fn lemma_number_kind_period(n: int)
    ensures
        number_kind(n + 30) == number_kind(n),
{
    assert((n + 30) % 3 == n % 3) by (nonlinear_arith);
    assert((n + 30) % 5 == n % 5) by (nonlinear_arith);
    assert((n + 30) % 2 == n % 2) by (nonlinear_arith);
}

/// A number and its negation are described alike.
pub proof fn lemma_number_kind_symmetric(n: int)
    ensures
        number_kind(-n) == number_kind(n),
{
    assert((n % 3 == 0) == ((-n) % 3 == 0)) by (nonlinear_arith);
    assert((n % 5 == 0) == ((-n) % 5 == 0)) by (nonlinear_arith);
    assert((n % 2 == 0) == ((-n) % 2 == 0)) by (nonlinear_arith);
}

} // verus!
