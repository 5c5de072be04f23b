use vstd::prelude::*;

verus! {

/// Character shown for a letter not yet guessed.
pub const HIDDEN: char = '-';

/// Relies on `String::push`: appends one character.
#[verifier::external_body]
fn push_char(s: &mut String, c: char)
    ensures
        final(s)@ == old(s)@.push(c),
{
    s.push(c);
}

/// The word as shown to the player: guessed letters in place, the others hidden.
pub open spec fn prompt_of(guessed: Seq<bool>, secret: Seq<char>) -> Seq<char> {
    Seq::new(secret.len(), |i: int| if guessed[i] { secret[i] } else { HIDDEN })
}

pub fn get_prompt_word(guess_flag: &Vec<bool>, secret_word_chars: &Vec<char>) -> (r: String)
    requires
        guess_flag@.len() >= secret_word_chars@.len(),
    ensures
        r@ == prompt_of(guess_flag@, secret_word_chars@),
{
    let word_length = secret_word_chars.len();
    let mut prompt_word = String::new();
    let mut i: usize = 0;
    while i < word_length
        invariant
            word_length == secret_word_chars@.len(),
            guess_flag@.len() >= word_length,
            i <= word_length,
            prompt_word@ == prompt_of(guess_flag@, secret_word_chars@.subrange(0, i as int)),
        decreases word_length - i,
    {
        let c = if !guess_flag[i] {
            HIDDEN
        } else {
            secret_word_chars[i]
        };
        push_char(&mut prompt_word, c);
        i = i + 1;
        assert(prompt_word@ =~= prompt_of(guess_flag@, secret_word_chars@.subrange(0, i as int)));
    }
    assert(secret_word_chars@.subrange(0, word_length as int) =~= secret_word_chars@);
    prompt_word
}

/// Reveals every hidden occurrence of `c`; returns whether there was one.
pub fn guess_check(guess_flag: &mut Vec<bool>, secret_word_chars: &Vec<char>, c: char) -> (r: bool)
    requires
        old(guess_flag)@.len() >= secret_word_chars@.len(),
    ensures
        final(guess_flag)@.len() == old(guess_flag)@.len(),
        forall|i: int|
            0 <= i < secret_word_chars@.len() ==> #[trigger] final(guess_flag)@[i] == (
            old(guess_flag)@[i] || secret_word_chars@[i] == c),
        forall|i: int|
            secret_word_chars@.len() <= i < old(guess_flag)@.len() ==> #[trigger] final(guess_flag)@[i]
                == old(guess_flag)@[i],
        r == exists|i: int|
            0 <= i < secret_word_chars@.len() && !old(guess_flag)@[i] && secret_word_chars@[i]
                == c,
{
    let mut result = false;
    let word_length = secret_word_chars.len();
    let mut i: usize = 0;
    while i < word_length
        invariant
            word_length == secret_word_chars@.len(),
            guess_flag@.len() == old(guess_flag)@.len(),
            word_length <= guess_flag@.len(),
            i <= word_length,
            forall|k: int|
                0 <= k < i ==> #[trigger] guess_flag@[k] == (old(guess_flag)@[k]
                    || secret_word_chars@[k] == c),
            forall|k: int| i <= k < guess_flag@.len() ==> #[trigger] guess_flag@[k] == old(guess_flag)@[k],
            result == exists|k: int|
                0 <= k < i && !old(guess_flag)@[k] && secret_word_chars@[k] == c,
        decreases word_length - i,
    {
        if !guess_flag[i] && secret_word_chars[i] == c {
            result = true;
            guess_flag.set(i, true);
        }
        i = i + 1;
    }
    result
}

} // verus!
