//! Voters of the show, each of whom wants one pet kept and one pet of the
//! other species sent home, and the text lines that they are read from.

use vstd::prelude::*;
use crate::text::{
    characters, parse_number, parsed_number, split_at, split_at_spaces, trim, trimmed, words_of,
};

verus! {

/// The two kinds of pets in the show.
#[derive(PartialEq, Eq, Structural, Clone, Copy, Debug)]
pub enum Species {
    Dog,
    Cat,
}

/// One contestant: the pet with the given number among those of its species.
#[derive(PartialEq, Eq, Structural, Clone, Copy, Debug)]
pub struct Pet {
    pub species: Species,
    pub number: usize,
}

/// A vote as plain data: the species of the pet to keep, and the numbers
/// of the dog and of the cat that the vote names.
pub struct Ballot {
    pub favorite_species: Species,
    pub dog_vote: usize,
    pub cat_vote: usize,
}

/// A voter, who names one dog and one cat: the pet of the favorite
/// species is to stay, the other one is to go.
pub struct Voter {
    favorite_species: Species,
    dog_vote: usize,
    cat_vote: usize,
}

impl View for Voter {
    type V = Ballot;

    closed spec fn view(&self) -> Ballot {
        Ballot {
            favorite_species: self.favorite_species,
            dog_vote: self.dog_vote,
            cat_vote: self.cat_vote,
        }
    }
}

/// Two votes can both be honoured: they favor the same species, or they
/// name different dogs and different cats.
pub open spec fn compatible(a: Ballot, b: Ballot) -> bool {
    a.favorite_species == b.favorite_species || (a.dog_vote != b.dog_vote && a.cat_vote
        != b.cat_vote)
}

impl Voter {
    /// Whether this voter and `other` can both have their way.
    pub fn is_compatible(&self, other: &Voter) -> (fits: bool)
        ensures
            fits == compatible(self@, other@),
    {
        self.favorite_species == other.favorite_species || (self.dog_vote != other.dog_vote
            && self.cat_vote != other.cat_vote)
    }

    /// Whether this voter wants a cat to stay.
    pub fn is_cat_person(&self) -> (cat: bool)
        ensures
            cat == (self@.favorite_species == Species::Cat),
    {
        self.favorite_species == Species::Cat
    }
}

/// The pet that `code` names: the letter `C` or `D`, then the decimal
/// number of a cat from 1 to `cat_count`, or of a dog from 1 to `dog_count`.
pub open spec fn pet_of(code: Seq<char>, cat_count: usize, dog_count: usize) -> Option<Pet> {
    if code.len() < 2 || (code[0] != 'C' && code[0] != 'D') {
        None
    } else {
        let species = if code[0] == 'C' {
            Species::Cat
        } else {
            Species::Dog
        };
        let limit = if code[0] == 'C' {
            cat_count
        } else {
            dog_count
        };
        match parsed_number(code.skip(1)) {
            Some(number) => if 0 < number <= limit {
                Some(Pet { species, number })
            } else {
                None
            },
            None => None,
        }
    }
}

/// The vote that `line` holds: between white space, two pet codes with
/// one space between them, one of each species; the first pet is the one
/// to keep.
pub open spec fn ballot_of(line: Seq<char>, cat_count: usize, dog_count: usize) -> Option<Ballot> {
    let words = split_at(trimmed(line), ' ');
    if words.len() != 2 {
        None
    } else {
        match (pet_of(words[0], cat_count, dog_count), pet_of(words[1], cat_count, dog_count)) {
            (Some(keep), Some(drop)) => if keep.species == drop.species {
                None
            } else if keep.species == Species::Cat {
                Some(
                    Ballot {
                        favorite_species: Species::Cat,
                        dog_vote: drop.number,
                        cat_vote: keep.number,
                    },
                )
            } else {
                Some(
                    Ballot {
                        favorite_species: Species::Dog,
                        dog_vote: keep.number,
                        cat_vote: drop.number,
                    },
                )
            },
            _ => None,
        }
    }
}

/// Reads one pet code.
pub fn read_pet(code: &Vec<char>, cat_count: usize, dog_count: usize) -> (pet: Option<Pet>)
    ensures
        pet == pet_of(code@, cat_count, dog_count),
{
    if code.len() < 2 {
        return None;
    }
    let letter: char = code[0];
    let species = if letter == 'C' {
        Species::Cat
    } else if letter == 'D' {
        Species::Dog
    } else {
        return None;
    };
    let mut digits: Vec<char> = Vec::new();
    let mut k: usize = 1;
    while k < code.len()
        invariant
            1 <= k <= code@.len(),
            digits@ == code@.subrange(1, k as int),
        decreases code@.len() - k,
    {
        digits.push(code[k]);
        assert(code@.subrange(1, k + 1) =~= code@.subrange(1, k as int).push(code@[k as int]));
        k += 1;
    }
    assert(digits@ =~= code@.skip(1));
    let number: usize = match parse_number(&digits) {
        Some(x) => {
            if x > 0 {
                x
            } else {
                return None;
            }
        },
        None => {
            return None;
        },
    };
    if species == Species::Cat && number > cat_count || species == Species::Dog && number
        > dog_count {
        return None;
    }
    Some(Pet { species, number })
}

/// Reads the vote that `line` holds.
pub fn read_voter(line: &str, cat_count: usize, dog_count: usize) -> (voter: Option<Voter>)
    ensures
        match voter {
            Some(v) => ballot_of(line@, cat_count, dog_count) == Some(v@),
            None => ballot_of(line@, cat_count, dog_count) is None,
        },
{
    let chars = characters(line);
    let inner = trim(&chars);
    let words = split_at_spaces(&inner);
    assert(words_of(words@).len() == words@.len());
    if words.len() != 2 {
        return None;
    }
    assert(words_of(words@)[0] == words@[0]@);
    assert(words_of(words@)[1] == words@[1]@);
    let first = read_pet(&words[0], cat_count, dog_count);
    let second = read_pet(&words[1], cat_count, dog_count);
    match (first, second) {
        (Some(keep), Some(drop)) => {
            let favorite_species = keep.species;
            if favorite_species == drop.species {
                None
            } else {
                Some(
                    Voter {
                        favorite_species,
                        cat_vote: match favorite_species {
                            Species::Cat => keep.number,
                            Species::Dog => drop.number,
                        },
                        dog_vote: match favorite_species {
                            Species::Dog => keep.number,
                            Species::Cat => drop.number,
                        },
                    },
                )
            }
        },
        _ => None,
    }
}

/// The largest number of dogs that a show may have.
pub const MAX_DOGS: usize = 100;

/// The largest number of voters that a show may have.
pub const MAX_VOTERS: usize = 500;

/// Every word of `words` is a number that fits the machine word.
pub open spec fn all_numbers(words: Seq<Seq<char>>) -> bool {
    forall|i: int| 0 <= i < words.len() ==> (#[trigger] parsed_number(words[i])) is Some
}

/// The numbers of cats, dogs and voters that `line` announces: between
/// white space, numbers with one space between each two, at least three
/// of them, of which the first three count; there is a cat or more, and
/// there are no more dogs and no more voters than a show may have.
pub open spec fn parameters_of(line: Seq<char>) -> Option<(usize, usize, usize)> {
    let words = split_at(trimmed(line), ' ');
    if words.len() < 3 || !all_numbers(words) {
        None
    } else {
        let cat_count = parsed_number(words[0])->0;
        let dog_count = parsed_number(words[1])->0;
        let voter_count = parsed_number(words[2])->0;
        if cat_count < 1 || dog_count > MAX_DOGS || voter_count > MAX_VOTERS {
            None
        } else {
            Some((cat_count, dog_count, voter_count))
        }
    }
}

/// Reads the numbers of cats, dogs and voters from the line that opens a
/// show.
pub fn get_parameters(input: &str) -> (parameters: Option<(usize, usize, usize)>)
    ensures
        parameters == parameters_of(input@),
{
    let chars = characters(input);
    let inner = trim(&chars);
    let words = split_at_spaces(&inner);
    assert(words_of(words@).len() == words@.len());
    let mut numbers: Vec<usize> = Vec::new();
    let mut k: usize = 0;
    while k < words.len()
        invariant
            k <= words@.len(),
            numbers@.len() == k,
            words_of(words@) == split_at(trimmed(input@), ' '),
            forall|i: int|
                0 <= i < k ==> parsed_number(#[trigger] words_of(words@)[i]) == Some(numbers@[i]),
        decreases words@.len() - k,
    {
        assert(words_of(words@)[k as int] == words@[k as int]@);
        match parse_number(&words[k]) {
            Some(number) => {
                numbers.push(number);
            },
            None => {
                assert(!all_numbers(words_of(words@)));
                return None;
            },
        }
        k += 1;
    }
    assert(all_numbers(words_of(words@)));
    if numbers.len() < 3 {
        return None;
    }
    let cat_count: usize = numbers[0];
    let dog_count: usize = numbers[1];
    let voter_count: usize = numbers[2];
    if cat_count < 1 || dog_count > MAX_DOGS || voter_count > MAX_VOTERS {
        None
    } else {
        Some((cat_count, dog_count, voter_count))
    }
}

/// The contents of a list of lines.
pub open spec fn lines_of(lines: Seq<String>) -> Seq<Seq<char>> {
    Seq::new(lines.len(), |i: int| lines[i]@)
}

/// The votes of a list of voters.
pub open spec fn ballots(voters: Seq<Voter>) -> Seq<Ballot> {
    Seq::new(voters.len(), |i: int| voters[i]@)
}

/// The votes that `lines` hold, in their order: lines without a vote are
/// passed over, and after `wanted` votes no further line counts.
pub open spec fn ballots_of(
    lines: Seq<Seq<char>>,
    cat_count: usize,
    dog_count: usize,
    wanted: nat,
) -> Seq<Ballot>
    decreases lines.len(),
{
    if lines.len() == 0 {
        Seq::<Ballot>::empty()
    } else {
        let before = ballots_of(lines.drop_last(), cat_count, dog_count, wanted);
        match ballot_of(lines.last(), cat_count, dog_count) {
            Some(ballot) => if before.len() < wanted {
                before.push(ballot)
            } else {
                before
            },
            None => before,
        }
    }
}

/// Those of the votes `all` that favor `species`, in their order.
pub open spec fn favoring(all: Seq<Ballot>, species: Species) -> Seq<Ballot>
    decreases all.len(),
{
    if all.len() == 0 {
        Seq::<Ballot>::empty()
    } else {
        let before = favoring(all.drop_last(), species);
        if all.last().favorite_species == species {
            before.push(all.last())
        } else {
            before
        }
    }
}

/// There are never more votes than were wanted.
pub proof fn lemma_ballots_of_len(
    lines: Seq<Seq<char>>,
    cat_count: usize,
    dog_count: usize,
    wanted: nat,
)
    ensures
        ballots_of(lines, cat_count, dog_count, wanted).len() <= wanted,
        ballots_of(lines, cat_count, dog_count, wanted).len() <= lines.len(),
    decreases lines.len(),
{
    if lines.len() > 0 {
        lemma_ballots_of_len(lines.drop_last(), cat_count, dog_count, wanted);
    }
}

/// Every vote favors cats or favors dogs.
pub proof fn lemma_favoring_splits(all: Seq<Ballot>)
    ensures
        favoring(all, Species::Cat).len() + favoring(all, Species::Dog).len() == all.len(),
    decreases all.len(),
{
    if all.len() > 0 {
        lemma_favoring_splits(all.drop_last());
    }
}

/// Reads the first `voter_count` votes that `lines` hold, passing over
/// the lines that hold none, and returns the voters who favor cats and
/// those who favor dogs, each group in the order of the lines.
pub fn get_voter_list(
    lines: &Vec<String>,
    cat_count: usize,
    dog_count: usize,
    voter_count: usize,
) -> (voters: (Vec<Voter>, Vec<Voter>))
    ensures
        ballots(voters.0@) == favoring(
            ballots_of(lines_of(lines@), cat_count, dog_count, voter_count as nat),
            Species::Cat,
        ),
        ballots(voters.1@) == favoring(
            ballots_of(lines_of(lines@), cat_count, dog_count, voter_count as nat),
            Species::Dog,
        ),
{
    let mut dog_lovers: Vec<Voter> = Vec::new();
    let mut cat_lovers: Vec<Voter> = Vec::new();
    let mut read: usize = 0;
    let mut k: usize = 0;
    assert(lines_of(lines@).take(0) =~= Seq::<Seq<char>>::empty());
    assert(ballots(cat_lovers@) =~= Seq::<Ballot>::empty());
    assert(ballots(dog_lovers@) =~= Seq::<Ballot>::empty());
    while k < lines.len()
        invariant
            k <= lines@.len(),
            read <= k,
            read == ballots_of(
                lines_of(lines@).take(k as int),
                cat_count,
                dog_count,
                voter_count as nat,
            ).len(),
            ballots(cat_lovers@) == favoring(
                ballots_of(
                    lines_of(lines@).take(k as int),
                    cat_count,
                    dog_count,
                    voter_count as nat,
                ),
                Species::Cat,
            ),
            ballots(dog_lovers@) == favoring(
                ballots_of(
                    lines_of(lines@).take(k as int),
                    cat_count,
                    dog_count,
                    voter_count as nat,
                ),
                Species::Dog,
            ),
        decreases lines@.len() - k,
    {
        let ghost shorter = lines_of(lines@).take(k as int);
        let ghost longer = lines_of(lines@).take(k + 1);
        let ghost before = ballots_of(shorter, cat_count, dog_count, voter_count as nat);
        let ghost cats = ballots(cat_lovers@);
        let ghost dogs = ballots(dog_lovers@);
        proof {
            assert(longer.drop_last() =~= shorter);
            assert(longer.last() == lines@[k as int]@);
        }
        match read_voter(lines[k].as_str(), cat_count, dog_count) {
            Some(voter) => {
                if read < voter_count {
                    proof {
                        let after = before.push(voter@);
                        assert(after.drop_last() =~= before);
                        assert(after.last() == voter@);
                    }
                    if voter.is_cat_person() {
                        cat_lovers.push(voter);
                        assert(ballots(cat_lovers@) =~= cats.push(voter@));
                    } else {
                        dog_lovers.push(voter);
                        assert(ballots(dog_lovers@) =~= dogs.push(voter@));
                    }
                    read += 1;
                }
            },
            None => {},
        }
        k += 1;
    }
    proof {
        assert(lines_of(lines@).take(lines@.len() as int) =~= lines_of(lines@));
    }
    (cat_lovers, dog_lovers)
}

} // verus!
