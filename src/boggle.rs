//! Boggle: the dictionary words that can be spelled on a board by moving between
//! touching cells, using each cell at most once.

use vstd::prelude::*;
use crate::trie::{Presence, Trie};

verus! {

/// Letters are stored as their distance from `A`, so that they fit the trie's alphabet.
pub const LETTER_OFFSET: u8 = 65;

/// The letter Q after applying the offset.
pub const OFFSET_Q: u8 = 81 - LETTER_OFFSET;

/// The letter U after applying the offset.
pub const OFFSET_U: u8 = 85 - LETTER_OFFSET;

/// Cells `p` and `q` of a board `w` cells wide touch: side by side or diagonally.
pub open spec fn adjacent(w: int, p: int, q: int) -> bool {
    p != q && -1 <= p / w - q / w <= 1 && -1 <= p % w - q % w <= 1
}

/// What a cell showing letter `l` spells: a Q cell spells QU.
pub open spec fn tile(l: u8) -> Seq<u8> {
    if l == OFFSET_Q {
        seq![OFFSET_Q, OFFSET_U]
    } else {
        seq![l]
    }
}

/// The letters spelled by visiting the cells of `path` in order.
pub open spec fn spelled(letters: Seq<u8>, path: Seq<usize>) -> Seq<u8>
    decreases path.len(),
{
    if path.len() == 0 {
        Seq::empty()
    } else {
        spelled(letters, path.drop_last()) + tile(letters[path[path.len() - 1] as int])
    }
}

/// `path` visits distinct cells among the first `n` of a board `w` wide, each touching the next.
pub open spec fn is_board_path(w: int, n: int, path: Seq<usize>) -> bool {
    &&& forall|i: int| 0 <= i < path.len() ==> #[trigger] path[i] < n
    &&& forall|i: int, j: int| 0 <= i < j < path.len() ==> path[i] != path[j]
    &&& forall|i: int| 0 <= i < path.len() - 1 ==> #[trigger] adjacent(w, path[i] as int, path[i + 1] as int)
}

/// The characters of a word stored as offset letters.
pub open spec fn word_chars(word: Seq<u8>) -> Seq<char> {
    Seq::new(word.len(), |i: int| (word[i] + LETTER_OFFSET) as char)
}

/// `word` is in the dictionary `dict` and spelled by some board path over `cells`,
/// a board `w` cells wide.
pub open spec fn spellable(w: int, cells: Seq<u8>, dict: Trie, word: Seq<u8>) -> bool {
    exists|path: Seq<usize>|
        #[trigger] is_board_path(w, cells.len() as int, path) && path.len() > 0 && dict.presence(
            spelled(cells, path),
        ) == Presence::Present && spelled(cells, path) == word
}

/// `prefix` is the start of path `p`.
pub open spec fn starts_with(p: Seq<usize>, prefix: Seq<usize>) -> bool {
    prefix.len() <= p.len() && p.subrange(0, prefix.len() as int) == prefix
}

/// `found` holds `word`.
pub open spec fn holds_word(found: Seq<Vec<u8>>, word: Seq<u8>) -> bool {
    exists|k: int| 0 <= k < found.len() && #[trigger] found[k]@ == word
}

/// Every dictionary word spelled by a board path that starts with `prefix` is in `found`.
pub open spec fn covers(w: int, cells: Seq<u8>, dict: Trie, prefix: Seq<usize>, found: Seq<Vec<u8>>) -> bool {
    forall|p: Seq<usize>|
        #[trigger] starts_with(p, prefix) && is_board_path(w, cells.len() as int, p) && dict.presence(
            spelled(cells, p),
        ) == Presence::Present ==> holds_word(found, spelled(cells, p))
}

/// What a path spells begins with what its start spells.
proof fn lemma_spelled_prefix(cells: Seq<u8>, p: Seq<usize>, prefix: Seq<usize>)
    requires
        starts_with(p, prefix),
    ensures
        crate::trie::is_prefix_of(spelled(cells, prefix), spelled(cells, p)),
    decreases p.len(),
{
    if p.len() > prefix.len() {
        let q = p.drop_last();
        assert(q.subrange(0, prefix.len() as int) =~= p.subrange(0, prefix.len() as int));
        lemma_spelled_prefix(cells, q, prefix);
        let a = spelled(cells, prefix);
        let b = spelled(cells, q);
        let c = spelled(cells, p);
        assert(c == b + tile(cells[p[p.len() - 1] as int]));
        assert(c.subrange(0, a.len() as int) =~= b.subrange(0, a.len() as int));
    } else {
        assert(p =~= prefix);
        assert(spelled(cells, p).subrange(0, spelled(cells, p).len() as int) =~= spelled(cells, p));
    }
}

/// A list that only grows keeps every word it held.
proof fn lemma_holds_grow(old_found: Seq<Vec<u8>>, new_found: Seq<Vec<u8>>, word: Seq<u8>)
    requires
        old_found.len() <= new_found.len(),
        new_found.subrange(0, old_found.len() as int) == old_found,
        holds_word(old_found, word),
    ensures
        holds_word(new_found, word),
{
    let k = choose|k: int| 0 <= k < old_found.len() && #[trigger] old_found[k]@ == word;
    assert(new_found.subrange(0, old_found.len() as int)[k] == new_found[k]);
}

/// A cell touching `p` sits in one place of the 3 by 3 window around `p`, and the window
/// walk finds it there.
proof fn lemma_window_finds(w: int, h: int, p: int, row: int, col: int, q: int, dr: int, dc: int)
    requires
        w > 0,
        0 <= p < w * h,
        0 <= q < w * h,
        row == p / w,
        col == p % w,
        adjacent(w, p, q),
        0 <= dr < 3,
        0 <= dc < 3,
        q / w - row + 1 == dr,
        q % w - col + 1 == dc,
    ensures
        dr != 0 || row >= 1,
        dc != 0 || col >= 1,
        !(dr == 1 && dc == 1),
        row + dr - 1 < h,
        col + dc - 1 < w,
        (row + dr - 1) * w + (col + dc - 1) == q,
{
    vstd::arithmetic::div_mod::lemma_fundamental_div_mod(q, w);
    vstd::arithmetic::div_mod::lemma_fundamental_div_mod(p, w);
    assert(q / w >= 0) by {
        vstd::arithmetic::div_mod::lemma_div_pos_is_pos(q, w);
    }
    assert(q / w < h) by (nonlinear_arith)
        requires
            q == w * (q / w) + q % w,
            0 <= q % w,
            q < w * h,
            w > 0,
    ;
    assert((row + dr - 1) * w + (col + dc - 1) == q) by (nonlinear_arith)
        requires
            q == w * (q / w) + q % w,
            row + dr - 1 == q / w,
            col + dc - 1 == q % w,
    ;
    if dr == 1 && dc == 1 {
        assert(p == w * row + col);
    }
}

/// A Boggle board, its letters stored row by row as offsets from `A`.
#[derive(Debug)]
pub struct BoggleBoard {
    width: usize,
    height: usize,
    letters: Vec<u8>,
}

impl BoggleBoard {
    /// The number of columns.
    pub closed spec fn board_width(&self) -> nat {
        self.width as nat
    }

    /// The number of cells.
    pub closed spec fn cell_count(&self) -> nat {
        self.letters@.len()
    }

    /// The letter of each cell, row by row, as an offset from `A`.
    pub closed spec fn cells(&self) -> Seq<u8> {
        self.letters@
    }

    /// Every cell holds a letter that stays below the offset again after shifting.
    pub closed spec fn wf(&self) -> bool {
        &&& self.letters@.len() == self.width * self.height
        &&& forall|i: int| 0 <= i < self.letters@.len() ==> #[trigger] self.letters@[i] < LETTER_OFFSET
    }

    /// A board `width` cells wide and `height` high with the given letters, row by row.
    pub fn new(width: usize, height: usize, letters: Vec<u8>) -> (r: BoggleBoard)
        requires
            width * height == letters@.len(),
            forall|i: int| 0 <= i < letters@.len() ==> LETTER_OFFSET <= #[trigger] letters@[i] < 2 * LETTER_OFFSET,
        ensures
            r.wf(),
            r.board_width() == width,
            r.cells() == Seq::new(letters@.len(), |i: int| (letters@[i] - LETTER_OFFSET) as u8),
    {
        let mut adjusted_letters: Vec<u8> = Vec::with_capacity(letters.len());
        let mut i: usize = 0;
        while i < letters.len()
            invariant
                i <= letters@.len(),
                adjusted_letters@ =~= Seq::new(i as nat, |k: int| (letters@[k] - LETTER_OFFSET) as u8),
                forall|k: int| 0 <= k < letters@.len() ==> LETTER_OFFSET <= #[trigger] letters@[k] < 2 * LETTER_OFFSET,
            decreases letters@.len() - i,
        {
            adjusted_letters.push(letters[i] - LETTER_OFFSET);
            i += 1;
        }
        BoggleBoard { width, height, letters: adjusted_letters }
    }
}

/// A Boggle solver over a fixed dictionary.
#[derive(Debug)]
pub struct BoggleSolver {
    words: Trie,
}

/// Each character of `word` is a capital letter.
pub open spec fn is_capital_word(word: Seq<char>) -> bool {
    forall|i: int| 0 <= i < word.len() ==> 'A' <= #[trigger] word[i] <= 'Z'
}

/// Offset letters of a capital word.
pub open spec fn offset_letters(word: Seq<char>) -> Seq<u8> {
    Seq::new(word.len(), |i: int| (word[i] as u8 - LETTER_OFFSET) as u8)
}

impl BoggleSolver {
    /// The dictionary: what its trie says of each word of offset letters.
    pub closed spec fn dictionary(&self) -> Trie {
        self.words
    }

    /// A solver for the dictionary `valid_words`, all in capital letters.
    pub fn new(valid_words: Vec<String>) -> (r: BoggleSolver)
        requires
            forall|k: int| 0 <= k < valid_words@.len() ==> is_capital_word(#[trigger] valid_words@[k]@),
        ensures
            r.dictionary().wf(),
            forall|k: int|
                0 <= k < valid_words@.len() ==> r.dictionary().presence(offset_letters(#[trigger] valid_words@[k]@))
                    == Presence::Present,
            forall|key: Seq<u8>|
                #[trigger] r.dictionary().presence(key) == Presence::Present ==> exists|k: int|
                    0 <= k < valid_words@.len() && offset_letters(#[trigger] valid_words@[k]@) == key,
    {
        let mut trie = Trie::new();
        let mut w: usize = 0;
        while w < valid_words.len()
            invariant
                w <= valid_words@.len(),
                trie.wf(),
                forall|k: int| 0 <= k < valid_words@.len() ==> is_capital_word(#[trigger] valid_words@[k]@),
                forall|k: int| 0 <= k < w ==> trie.presence(offset_letters(#[trigger] valid_words@[k]@)) == Presence::Present,
                forall|key: Seq<u8>|
                    #[trigger] trie.presence(key) == Presence::Present ==> exists|k: int|
                        0 <= k < w && offset_letters(#[trigger] valid_words@[k]@) == key,
            decreases valid_words@.len() - w,
        {
            let word = &valid_words[w];
            let text = word.as_str();
            let bytes = text.as_bytes();
            proof {
                assert(vstd::string::is_ascii(text)) by {
                    assert(is_capital_word(word@));
                }
                vstd::string::is_ascii_spec_bytes(text);
            }
            let mut letters: Vec<u8> = Vec::with_capacity(bytes.len());
            let mut i: usize = 0;
            while i < bytes.len()
                invariant
                    i <= bytes@.len(),
                    bytes@ == Seq::new(word@.len(), |k: int| word@[k] as u8),
                    is_capital_word(word@),
                    letters@ =~= offset_letters(word@).subrange(0, i as int),
                decreases bytes@.len() - i,
            {
                letters.push(bytes[i] - LETTER_OFFSET);
                i += 1;
            }
            assert(letters@ =~= offset_letters(word@));
            let ghost before = trie;
            trie.add(letters.as_slice());
            proof {
                assert forall|k: int| 0 <= k < w + 1 implies trie.presence(offset_letters(#[trigger] valid_words@[k]@)) == Presence::Present by {
                    let key = offset_letters(valid_words@[k]@);
                    assert(trie.presence(key) == crate::trie::stored_after(before.presence(key), key, letters@));
                }
                assert forall|key: Seq<u8>|
                    #[trigger] trie.presence(key) == Presence::Present implies exists|k: int|
                        0 <= k < w + 1 && offset_letters(#[trigger] valid_words@[k]@) == key by {
                    assert(trie.presence(key) == crate::trie::stored_after(before.presence(key), key, letters@));
                    if key == letters@ {
                        assert(offset_letters(valid_words@[w as int]@) == key);
                    } else {
                        assert(before.presence(key) == Presence::Present);
                        let k = choose|k: int| 0 <= k < w && offset_letters(#[trigger] valid_words@[k]@) == key;
                        assert(0 <= k < w + 1 && offset_letters(valid_words@[k]@) == key);
                    }
                }
            }
            w += 1;
        }
        BoggleSolver { words: trie }
    }

    /// The dictionary words that can be spelled on `board`, each once.
    pub fn find_valid_words(&self, board: &BoggleBoard) -> (r: Vec<String>)
        requires
            self.dictionary().wf(),
            board.wf(),
        ensures
            forall|k: int|
                0 <= k < r@.len() ==> is_capital_word(#[trigger] r@[k]@) && spellable(
                    board.board_width() as int,
                    board.cells(),
                    self.dictionary(),
                    offset_letters(r@[k]@),
                ),
            forall|word: Seq<u8>|
                #[trigger] spellable(board.board_width() as int, board.cells(), self.dictionary(), word) ==> exists|k: int|
                    0 <= k < r@.len() && offset_letters(#[trigger] r@[k]@) == word,
            forall|i: int, j: int| 0 <= i < j < r@.len() ==> r@[i]@ != r@[j]@,
    {
        let max_word_len = board.letters.len();
        let mut found_words: Vec<Vec<u8>> = Vec::new();
        let mut built_word: Vec<u8> = Vec::with_capacity(max_word_len);
        let mut path_so_far: Vec<usize> = Vec::with_capacity(max_word_len);
        let mut next_pos: usize = 0;
        assert(spelled(board.letters@, Seq::<usize>::empty()) =~= Seq::<u8>::empty());
        while next_pos < max_word_len
            invariant
                self.dictionary().wf(),
                board.wf(),
                max_word_len == board.cell_count(),
                built_word@.len() == 0,
                path_so_far@.len() == 0,
                next_pos <= max_word_len,
                self.found_ok(board, found_words@),
                forall|q: usize| q < next_pos ==> #[trigger] covers(board.width as int, board.letters@, self.words, seq![q], found_words@),
            decreases max_word_len - next_pos,
        {
            let ghost before = found_words@;
            assert(path_so_far@.push(next_pos) =~= seq![next_pos]);
            assert(spelled(board.letters@, path_so_far@) =~= Seq::<u8>::empty());
            assert(built_word@ =~= Seq::<u8>::empty());
            self.find_valid_words_inner(board, max_word_len, &mut found_words, &mut built_word, &mut path_so_far, next_pos);
            proof {
                assert(Seq::<usize>::empty().push(next_pos) =~= seq![next_pos]);
                assert forall|q: usize| q < next_pos + 1 implies #[trigger] covers(board.width as int, board.letters@, self.words, seq![q], found_words@) by {
                    if q < next_pos {
                        assert forall|p: Seq<usize>|
                            #[trigger] starts_with(p, seq![q]) && is_board_path(board.width as int, board.letters@.len() as int, p)
                                && self.words.presence(spelled(board.letters@, p)) == Presence::Present
                                implies holds_word(found_words@, spelled(board.letters@, p)) by {
                            assert(covers(board.width as int, board.letters@, self.words, seq![q], before));
                            lemma_holds_grow(before, found_words@, spelled(board.letters@, p));
                        }
                    }
                }
            }
            next_pos += 1;
        }
        let mut result: Vec<String> = Vec::with_capacity(found_words.len());
        let mut k: usize = 0;
        while k < found_words.len()
            invariant
                k <= found_words@.len(),
                self.found_ok(board, found_words@),
                result@.len() == k,
                forall|q: int| 0 <= q < k ==> (#[trigger] result@[q])@ == word_chars(found_words@[q]@),
            decreases found_words@.len() - k,
        {
            result.push(word_string(&found_words[k]));
            k += 1;
        }
        proof {
            assert forall|k: int|
                0 <= k < result@.len() implies is_capital_word(#[trigger] result@[k]@) && spellable(
                    board.board_width() as int,
                    board.cells(),
                    self.dictionary(),
                    offset_letters(result@[k]@),
                ) by {
                let f = found_words@[k]@;
                assert(offset_letters(word_chars(f)) =~= f) by {
                    assert forall|q: int| 0 <= q < f.len() implies #[trigger] offset_letters(word_chars(f))[q] == f[q] by {
                        assert(f[q] < crate::trie::R);
                    }
                }
                assert(is_capital_word(word_chars(f))) by {
                    assert forall|q: int| 0 <= q < f.len() implies 'A' <= #[trigger] word_chars(f)[q] <= 'Z' by {
                        assert(f[q] < crate::trie::R);
                    }
                }
                assert(spellable(board.width as int, board.letters@, self.words, found_words@[k]@));
                assert(result@[k]@ == word_chars(found_words@[k]@));
                assert(board.board_width() == board.width && board.cells() == board.letters@ && self.dictionary() == self.words);
                assert(spellable(board.board_width() as int, board.cells(), self.dictionary(), found_words@[k]@));
            }
            assert forall|word: Seq<u8>|
                #[trigger] spellable(board.board_width() as int, board.cells(), self.dictionary(), word) implies exists|k: int|
                    0 <= k < result@.len() && offset_letters(#[trigger] result@[k]@) == word by {
                assert(board.board_width() == board.width && board.cells() == board.letters@ && self.dictionary() == self.words);
                let path = choose|path: Seq<usize>|
                    #[trigger] is_board_path(board.width as int, board.letters@.len() as int, path) && path.len() > 0 && self.words.presence(
                        spelled(board.letters@, path),
                    ) == Presence::Present && spelled(board.letters@, path) == word;
                let q = path[0];
                assert(path.subrange(0, 1) =~= seq![q]);
                assert(starts_with(path, seq![q]));
                assert(covers(board.width as int, board.letters@, self.words, seq![q], found_words@));
                assert(holds_word(found_words@, word));
                let k = choose|k: int| 0 <= k < found_words@.len() && #[trigger] found_words@[k]@ == word;
                let f = found_words@[k]@;
                assert(offset_letters(word_chars(f)) =~= f) by {
                    assert forall|q2: int| 0 <= q2 < f.len() implies #[trigger] offset_letters(word_chars(f))[q2] == f[q2] by {
                        assert(found_words@[k]@[q2] < crate::trie::R);
                    }
                }
                assert(result@[k]@ == word_chars(f));
            }
            assert forall|i: int, j: int| 0 <= i < j < result@.len() implies result@[i]@ != result@[j]@ by {
                let a = found_words@[i]@;
                let b = found_words@[j]@;
                assert(self.found_ok(board, found_words@));
                assert(a != b);
                if word_chars(a) == word_chars(b) {
                    assert(a.len() == word_chars(a).len() && b.len() == word_chars(b).len());
                    assert forall|q: int| 0 <= q < a.len() implies a[q] == b[q] by {
                        assert(found_words@[i]@[q] < crate::trie::R);
                        assert(found_words@[j]@[q] < crate::trie::R);
                        assert(word_chars(a)[q] == word_chars(b)[q]);
                    }
                    assert(a =~= b);
                }
            }
        }
        result
    }

    /// Each found word is in the dictionary and spelled by a board path; no word twice.
    pub closed spec fn found_ok(&self, board: &BoggleBoard, found: Seq<Vec<u8>>) -> bool {
        &&& forall|k: int| 0 <= k < found.len() ==> #[trigger] spellable(board.width as int, board.letters@, self.words, found[k]@)
        &&& forall|i: int, j: int| 0 <= i < j < found.len() ==> found[i]@ != found[j]@
        &&& forall|k: int, q: int| 0 <= k < found.len() && 0 <= q < found[k]@.len() ==> #[trigger] found[k]@[q] < crate::trie::R
    }

    /// Extends the walk `path_so_far` to the cell `next_pos`, records the word spelled if
    /// the dictionary holds it, and goes on to every touching cell not yet visited
    /// while the dictionary holds words that begin with what is spelled.
    #[verifier::rlimit(100)]
    #[verifier::spinoff_prover]
    fn find_valid_words_inner(
        &self,
        board: &BoggleBoard,
        max_word_len: usize,
        found_words: &mut Vec<Vec<u8>>,
        built_word: &mut Vec<u8>,
        path_so_far: &mut Vec<usize>,
        next_pos: usize,
    )
        requires
            self.dictionary().wf(),
            board.wf(),
            max_word_len == board.cell_count(),
            next_pos < max_word_len,
            is_board_path(board.board_width() as int, max_word_len as int, old(path_so_far)@.push(next_pos)),
            old(built_word)@ == spelled(board.cells(), old(path_so_far)@),
            self.found_ok(board, old(found_words)@),
        ensures
            final(built_word)@ == old(built_word)@,
            final(path_so_far)@ == old(path_so_far)@,
            self.found_ok(board, final(found_words)@),
            old(found_words)@.len() <= final(found_words)@.len(),
            final(found_words)@.subrange(0, old(found_words)@.len() as int) == old(found_words)@,
            covers(board.width as int, board.letters@, self.words, old(path_so_far)@.push(next_pos), final(found_words)@),
        decreases max_word_len - path_so_far@.len(),
    {
        let ghost w = board.width as int;
        let ghost n = max_word_len as int;
        let ghost cells = board.letters@;
        let ghost start_path = path_so_far@;
        let ghost start_word = built_word@;
        let ghost start_found = found_words@;
        path_so_far.push(next_pos);
        let next_char = board.letters[next_pos];
        built_word.push(next_char);
        if next_char == OFFSET_Q {
            built_word.push(OFFSET_U);
        }
        proof {
            assert(path_so_far@.drop_last() =~= start_path);
            assert(built_word@ =~= start_word + tile(cells[next_pos as int]));
            assert(built_word@ == spelled(cells, path_so_far@));
            assert(path_so_far@.len() <= n) by {
                lemma_board_path_len(w, n, path_so_far@);
            }
        }
        let path_is_possible_word = match self.words.contains(built_word.as_slice()) {
            Presence::Missing => false,
            Presence::Prefix => true,
            Presence::Present => {
                let already = contains_word(found_words, built_word);
                if !already {
                    let ghost before = found_words@;
                    found_words.push(built_word.clone());
                    proof {
                        let path = path_so_far@;
                        assert(is_board_path(w, n, path) && path.len() > 0
                            && self.words.presence(spelled(cells, path)) == Presence::Present
                            && spelled(cells, path) == built_word@);
                        assert forall|k: int| 0 <= k < found_words@.len() implies #[trigger] spellable(w, cells, self.words, found_words@[k]@) by {
                            if k < before.len() {
                                assert(found_words@[k] == before[k]);
                            } else {
                                assert(found_words@[k]@ == built_word@);
                            }
                        }
                        assert forall|i: int, j: int| 0 <= i < j < found_words@.len() implies found_words@[i]@ != found_words@[j]@ by {
                            if j == found_words@.len() - 1 {
                                assert(found_words@[i] == before[i]);
                            } else {
                                assert(found_words@[i] == before[i] && found_words@[j] == before[j]);
                            }
                        }
                        self.words.lemma_known_letters(built_word@);
                        assert forall|k: int, q: int| 0 <= k < found_words@.len() && 0 <= q < found_words@[k]@.len() implies #[trigger] found_words@[k]@[q] < crate::trie::R by {
                            if k < before.len() {
                                assert(found_words@[k] == before[k]);
                            } else {
                                assert(found_words@[k]@ == built_word@);
                            }
                        }
                    }
                }
                true
            },
        };
        let ghost found_after_word = found_words@;
        let ghost whole = path_so_far@;
        proof {
            assert(found_after_word.subrange(0, start_found.len() as int) =~= start_found);
            if self.words.presence(built_word@) == Presence::Present {
                if !(found_after_word.len() > start_found.len()) {
                    // the word was there already
                    assert(holds_word(found_after_word, built_word@));
                } else {
                    assert(found_after_word[found_after_word.len() - 1]@ == built_word@);
                    assert(holds_word(found_after_word, built_word@));
                }
            }
        }
        if path_so_far.len() < max_word_len && path_is_possible_word {
            let width = board.width;
            proof {
                assert(width > 0) by (nonlinear_arith)
                    requires
                        max_word_len == width * board.height,
                        next_pos < max_word_len,
                ;
                vstd::arithmetic::div_mod::lemma_fundamental_div_mod(next_pos as int, width as int);
                assert(next_pos / width < board.height) by (nonlinear_arith)
                    requires
                        next_pos == width * (next_pos / width) + next_pos % width,
                        0 <= next_pos % width,
                        next_pos < width * board.height,
                        width > 0,
                ;
            }
            let row = next_pos / width;
            let col = next_pos % width;
            proof {
                assert forall|p: Seq<usize>|
                    #[trigger] starts_with(p, whole) && p.len() > whole.len() && is_board_path(w, n, p)
                        && self.words.presence(spelled(cells, p)) == Presence::Present
                        implies 0 <= (p[whole.len() as int] as int / w - row + 1) * 3 + (p[whole.len() as int] as int % w - col + 1) < 9 by {
                    assert(p[whole.len() - 1] == next_pos) by {
                        assert(p.subrange(0, whole.len() as int)[whole.len() - 1] == whole[whole.len() - 1]);
                    }
                    assert(adjacent(w, p[(whole.len() - 1) as int] as int, p[(whole.len() - 1) + 1] as int));
                }
            }
            let mut dr: usize = 0;
            while dr < 3
                invariant
                    self.dictionary().wf(),
                    board.wf(),
                    w == board.width,
                    n == max_word_len,
                    cells == board.letters@,
                    max_word_len == board.cell_count(),
                    width == board.width,
                    width > 0,
                    row == next_pos / width,
                    col == next_pos % width,
                    row < board.height,
                    col < width,
                    max_word_len == width * board.height,
                    next_pos < max_word_len,
                    dr <= 3,
                    path_so_far@ == start_path.push(next_pos),
                    start_path == old(path_so_far)@,
                    path_so_far@.len() < max_word_len,
                    is_board_path(w, n, path_so_far@),
                    built_word@ == spelled(cells, path_so_far@),
                    self.found_ok(board, found_words@),
                    whole == path_so_far@,
                    found_after_word.len() <= found_words@.len(),
                    found_words@.subrange(0, found_after_word.len() as int) == found_after_word,
                    forall|p: Seq<usize>|
                        #[trigger] starts_with(p, whole) && p.len() > whole.len() && is_board_path(w, n, p)
                            && self.words.presence(spelled(cells, p)) == Presence::Present
                            && (p[whole.len() as int] as int / w - row + 1) * 3 + (p[whole.len() as int] as int % w - col + 1) < dr * 3
                            ==> holds_word(found_words@, spelled(cells, p)),
                decreases 3 - dr,
            {
                let mut dc: usize = 0;
                while dc < 3
                    invariant
                        self.dictionary().wf(),
                        board.wf(),
                        w == board.width,
                        n == max_word_len,
                        cells == board.letters@,
                        max_word_len == board.cell_count(),
                        width == board.width,
                        width > 0,
                        row == next_pos / width,
                        col == next_pos % width,
                        row < board.height,
                        col < width,
                        max_word_len == width * board.height,
                        next_pos < max_word_len,
                        dr < 3,
                        dc <= 3,
                        path_so_far@ == start_path.push(next_pos),
                        start_path == old(path_so_far)@,
                        path_so_far@.len() < max_word_len,
                        is_board_path(w, n, path_so_far@),
                        built_word@ == spelled(cells, path_so_far@),
                        self.found_ok(board, found_words@),
                        whole == path_so_far@,
                        found_after_word.len() <= found_words@.len(),
                        found_words@.subrange(0, found_after_word.len() as int) == found_after_word,
                        forall|p: Seq<usize>|
                            #[trigger] starts_with(p, whole) && p.len() > whole.len() && is_board_path(w, n, p)
                                && self.words.presence(spelled(cells, p)) == Presence::Present
                                && (p[whole.len() as int] as int / w - row + 1) * 3 + (p[whole.len() as int] as int % w - col + 1) < dr * 3 + dc
                                ==> holds_word(found_words@, spelled(cells, p)),
                    decreases 3 - dc,
                {
                    let ghost found_before_cell = found_words@;
                    let ghost mut called = false;
                    if (dr != 0 || row >= 1) && (dc != 0 || col >= 1) && !(dr == 1 && dc == 1) {
                        let r2 = if dr == 0 {
                            row - 1
                        } else {
                            row + (dr - 1)
                        };
                        let c2 = if dc == 0 {
                            col - 1
                        } else {
                            col + (dc - 1)
                        };
                        if r2 < board.height && c2 < width {
                            proof {
                                assert(r2 * width + c2 < max_word_len) by (nonlinear_arith)
                                    requires
                                        r2 < board.height,
                                        c2 < width,
                                        max_word_len == width * board.height,
                                ;
                            }
                            let candidate_pos = r2 * width + c2;
                            if !path_contains(path_so_far, candidate_pos) {
                                proof {
                                    lemma_window_adjacent(width as int, next_pos as int, row as int, col as int, r2 as int, c2 as int);
                                    let p2 = path_so_far@.push(candidate_pos);
                                    assert forall|i: int| 0 <= i < p2.len() - 1 implies #[trigger] adjacent(w, p2[i] as int, p2[i + 1] as int) by {
                                        if i < path_so_far@.len() - 1 {
                                            assert(adjacent(w, path_so_far@[i] as int, path_so_far@[i + 1] as int));
                                        }
                                    }
                                    assert(max_word_len - path_so_far@.len() < max_word_len - start_path.len());
                                }
                                self.find_valid_words_inner(board, max_word_len, found_words, built_word, path_so_far, candidate_pos);
                                proof {
                                    called = true;
                                    assert(covers(w, cells, self.words, whole.push(candidate_pos), found_words@));
                                    assert forall|p: Seq<usize>|
                                        #[trigger] starts_with(p, whole) && p.len() > whole.len() && is_board_path(w, n, p)
                                            && self.words.presence(spelled(cells, p)) == Presence::Present
                                            && p[whole.len() as int] == candidate_pos
                                            implies holds_word(found_words@, spelled(cells, p)) by {
                                        assert(p.subrange(0, whole.len() as int + 1) =~= whole.push(candidate_pos));
                                        assert(starts_with(p, whole.push(candidate_pos)));
                                    }
                                }
                            }
                        }
                    }
                    proof {
                        assert(found_before_cell.len() <= found_words@.len());
                        assert(found_words@.subrange(0, found_before_cell.len() as int) =~= found_before_cell) by {
                            if called {
                            }
                        }
                        assert(found_words@.subrange(0, found_after_word.len() as int) =~= found_after_word) by {
                            assert(found_before_cell.subrange(0, found_after_word.len() as int) == found_after_word);
                        }
                        assert forall|p: Seq<usize>|
                            #[trigger] starts_with(p, whole) && p.len() > whole.len() && is_board_path(w, n, p)
                                && self.words.presence(spelled(cells, p)) == Presence::Present
                                && (p[whole.len() as int] as int / w - row + 1) * 3 + (p[whole.len() as int] as int % w - col + 1) < dr * 3 + dc + 1
                                implies holds_word(found_words@, spelled(cells, p)) by {
                            let q = p[whole.len() as int] as int;
                            assert(p[whole.len() - 1] == next_pos) by {
                                assert(p.subrange(0, whole.len() as int)[whole.len() - 1] == whole[whole.len() - 1]);
                            }
                            assert(adjacent(w, p[(whole.len() - 1) as int] as int, p[(whole.len() - 1) + 1] as int));
                            if (q / w - row + 1) * 3 + (q % w - col + 1) < dr * 3 + dc {
                                lemma_holds_grow(found_before_cell, found_words@, spelled(cells, p));
                            } else {
                                lemma_window_finds(w, board.height as int, next_pos as int, row as int, col as int, q, dr as int, dc as int);
                                assert(!whole.contains(q as usize)) by {
                                    if whole.contains(q as usize) {
                                        let i = choose|i: int| 0 <= i < whole.len() && whole[i] == q as usize;
                                        assert(p.subrange(0, whole.len() as int)[i] == p[i]);
                                        assert(p[i] != p[whole.len() as int]);
                                    }
                                }
                                assert(called);
                            }
                        }
                    }
                    dc += 1;
                }
                dr += 1;
            }
            proof {
                assert forall|p: Seq<usize>|
                    #[trigger] starts_with(p, whole) && p.len() > whole.len() && is_board_path(w, n, p)
                        && self.words.presence(spelled(cells, p)) == Presence::Present
                        implies holds_word(found_words@, spelled(cells, p)) by {
                    assert(p[whole.len() - 1] == next_pos) by {
                        assert(p.subrange(0, whole.len() as int)[whole.len() - 1] == whole[whole.len() - 1]);
                    }
                    assert(adjacent(w, p[(whole.len() - 1) as int] as int, p[(whole.len() - 1) + 1] as int));
                }
            }
        }
        let ghost found_done = found_words@;
        proof {
            assert(found_done.len() >= found_after_word.len());
            assert(found_done.subrange(0, found_after_word.len() as int) =~= found_after_word);
            assert forall|p: Seq<usize>|
                #[trigger] starts_with(p, whole) && is_board_path(w, n, p)
                    && self.words.presence(spelled(cells, p)) == Presence::Present
                    implies holds_word(found_done, spelled(cells, p)) by {
                if p.len() == whole.len() {
                    assert(p =~= whole);
                    lemma_holds_grow(found_after_word, found_done, spelled(cells, p));
                } else if !(whole.len() < max_word_len) {
                    lemma_board_path_len(w, n, p);
                } else if self.words.presence(spelled(cells, whole)) == Presence::Missing {
                    lemma_spelled_prefix(cells, p, whole);
                    self.words.lemma_missing_extends(spelled(cells, whole), spelled(cells, p));
                }
            }
            assert(found_done.subrange(0, start_found.len() as int) =~= start_found) by {
                assert(found_done.subrange(0, found_after_word.len() as int) == found_after_word);
            }
        }
        let ghost full = built_word@;
        path_so_far.pop();
        let removed_char = built_word.pop().unwrap();
        if removed_char == OFFSET_U && built_word.len() > 0 && built_word[built_word.len() - 1] == OFFSET_Q {
            // the U we removed was there because of a Q; so remove the Q too.
            built_word.pop();
        }
        proof {
            assert(path_so_far@ =~= start_path);
            if cells[next_pos as int] == OFFSET_Q {
                assert(built_word@ =~= start_word);
            } else {
                assert(full =~= start_word.push(cells[next_pos as int]));
                if removed_char == OFFSET_U {
                    assert(cells[next_pos as int] == OFFSET_U);
                    lemma_no_q_before_tile_end(cells, start_path);
                }
                assert(built_word@ =~= start_word);
            }
        }
    }

    /// The score of a word by its length in bytes.
    pub fn score_of_word(word: &String) -> (r: i32)
        ensures
            r == score_for_length((vstd::utf8::encode_utf8(word@).len() as usize) as nat),
    {
        let len = word.as_str().len();
        match len {
            0 | 1 | 2 => 0,
            3 | 4 => 1,
            5 => 2,
            6 => 3,
            7 => 5,
            _ => 11,
        }
    }
}

/// Whether `found` already holds `word`.
fn contains_word(found: &Vec<Vec<u8>>, word: &Vec<u8>) -> (r: bool)
    ensures
        r == exists|k: int| 0 <= k < found@.len() && (#[trigger] found@[k])@ == word@,
{
    let mut k: usize = 0;
    while k < found.len()
        invariant
            k <= found@.len(),
            forall|q: int| 0 <= q < k ==> (#[trigger] found@[q])@ != word@,
        decreases found@.len() - k,
    {
        if same_letters(&found[k], word) {
            return true;
        }
        k += 1;
    }
    false
}

/// Whether two words have the same letters.
fn same_letters(a: &Vec<u8>, b: &Vec<u8>) -> (r: bool)
    ensures
        r == (a@ == b@),
{
    if a.len() != b.len() {
        return false;
    }
    let mut i: usize = 0;
    while i < a.len()
        invariant
            a@.len() == b@.len(),
            i <= a@.len(),
            forall|q: int| 0 <= q < i ==> a@[q] == b@[q],
        decreases a@.len() - i,
    {
        if a[i] != b[i] {
            return false;
        }
        i += 1;
    }
    assert(a@ =~= b@);
    true
}

/// Whether `path` visits `pos`.
fn path_contains(path: &Vec<usize>, pos: usize) -> (r: bool)
    ensures
        r == path@.contains(pos),
{
    let mut k: usize = 0;
    while k < path.len()
        invariant
            k <= path@.len(),
            forall|q: int| 0 <= q < k ==> path@[q] != pos,
        decreases path@.len() - k,
    {
        if path[k] == pos {
            return true;
        }
        k += 1;
    }
    false
}

/// Relies on `String::from_utf8`: ASCII bytes make a string of the same characters.
#[verifier::external_body]
fn ascii_string(bytes: Vec<u8>) -> (r: String)
    requires
        forall|i: int| 0 <= i < bytes@.len() ==> #[trigger] bytes@[i] < 128,
    ensures
        r@ == Seq::new(bytes@.len(), |i: int| bytes@[i] as char),
{
    String::from_utf8(bytes).unwrap()
}

/// The word of capital letters that offset letters stand for.
fn word_string(word: &Vec<u8>) -> (r: String)
    requires
        forall|q: int| 0 <= q < word@.len() ==> #[trigger] word@[q] < crate::trie::R,
    ensures
        r@ == word_chars(word@),
{
    let mut bytes: Vec<u8> = Vec::with_capacity(word.len());
    let mut i: usize = 0;
    while i < word.len()
        invariant
            i <= word@.len(),
            forall|q: int| 0 <= q < word@.len() ==> #[trigger] word@[q] < crate::trie::R,
            bytes@.len() == i,
            forall|q: int| 0 <= q < i ==> #[trigger] bytes@[q] == word@[q] + LETTER_OFFSET,
        decreases word@.len() - i,
    {
        bytes.push(word[i] + LETTER_OFFSET);
        i += 1;
    }
    let r = ascii_string(bytes);
    assert(r@ =~= word_chars(word@));
    r
}

/// Nothing spelled ends in a bare Q: a Q cell always spells QU.
proof fn lemma_no_q_before_tile_end(cells: Seq<u8>, path: Seq<usize>)
    ensures
        spelled(cells, path).len() > 0 ==> spelled(cells, path)[spelled(cells, path).len() - 1] != OFFSET_Q,
{
    if path.len() > 0 {
        let prev = spelled(cells, path.drop_last());
        let t = tile(cells[path[path.len() - 1] as int]);
        assert(spelled(cells, path)[spelled(cells, path).len() - 1] == t[t.len() - 1]);
    }
}

/// A board path visits at most every cell once.
proof fn lemma_board_path_len(w: int, n: int, path: Seq<usize>)
    requires
        is_board_path(w, n, path),
        n >= 0,
    ensures
        path.len() <= n,
{
    let f = |i: int| path[i] as int;
    let dom = vstd::set_lib::set_int_range(0, path.len() as int);
    vstd::set_lib::lemma_int_range(0, path.len() as int);
    vstd::set_lib::lemma_int_range(0, n);
    assert(vstd::relations::injective_on(f, dom)) by {
        assert forall|x: int, y: int| dom.contains(x) && dom.contains(y) && #[trigger] f(x) == #[trigger] f(y) implies x == y by {
            if x < y {
                assert(path[x] != path[y]);
            } else if y < x {
                assert(path[y] != path[x]);
            }
        }
    }
    let img = dom.map(f);
    vstd::set_lib::lemma_map_size(dom, img, f);
    assert(img.subset_of(vstd::set_lib::set_int_range(0, n))) by {
        assert forall|y: int| img.contains(y) implies vstd::set_lib::set_int_range(0, n).contains(y) by {
            let x = choose|x: int| dom.contains(x) && f(x) == y;
            assert(path[x] < n);
        }
    }
    vstd::set_lib::lemma_len_subset(img, vstd::set_lib::set_int_range(0, n));
}

/// A cell of the 3 by 3 window around `p` (but `p` itself) touches `p`.
proof fn lemma_window_adjacent(w: int, p: int, row: int, col: int, r2: int, c2: int)
    requires
        w > 0,
        p >= 0,
        row == p / w,
        col == p % w,
        row - 1 <= r2 <= row + 1,
        col - 1 <= c2 <= col + 1,
        0 <= r2,
        0 <= c2 < w,
        !(r2 == row && c2 == col),
    ensures
        adjacent(w, p, r2 * w + c2),
{
    vstd::arithmetic::div_mod::lemma_fundamental_div_mod_converse(r2 * w + c2, w, r2, c2);
    vstd::arithmetic::div_mod::lemma_fundamental_div_mod(p, w);
    if p == r2 * w + c2 {
        vstd::arithmetic::div_mod::lemma_fundamental_div_mod_converse(p, w, r2, c2);
    }
}

/// Points for a word of `len` letters.
pub open spec fn score_for_length(len: nat) -> i32 {
    if len <= 2 {
        0
    } else if len <= 4 {
        1
    } else if len == 5 {
        2
    } else if len == 6 {
        3
    } else if len == 7 {
        5
    } else {
        11
    }
}

} // verus!
