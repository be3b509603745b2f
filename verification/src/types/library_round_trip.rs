//! What the librarian writes, the readers of libraries and of stub members read back.

use crate::common::MAGIC_NUMBER_LIB;
use crate::table::{table_empty, TableModel};
use crate::text::{
    are_lines, fields_of, hex_digits, is_blank, is_field, is_line, is_word, join, join_lines,
    lacks, lemma_fields_of_join, lemma_hex_reads_back, lemma_join_concat,
    lemma_join_fields_is_line, lemma_join_three, lemma_join_two, lemma_lines_of_join,
    lemma_word_is_field, lines_of, unsigned_hex,
};
use crate::types::errors::{LibError, ParseError};
use crate::common::MAP_FILE_NAME;
use crate::table::table_put;
use crate::types::library::{
    add_symbols, body_len, defined_names, dir_files, dir_lib_of, directory_entry, dirlib_files,
    file_entries, file_header, file_lib_of, file_module, lemma_file_entries_step,
    lemma_line_of_grows, library_file_text, library_header, line_of, map_file_text, map_line,
    objects_of, read_map, symbol_set, DirParts, FileParts, LibView,
};
use crate::types::object::{object_lines, object_text, ObjectView, MAGIC_NUMBER};
use crate::types::round_trip::{
    body_lines, lemma_body_reads_back, lemma_header_reads_back, lemma_module_reads_back, printable,
};
use crate::types::symbol_table::{SymbolId, SymbolView};
use crate::common::STUB_MAGIC_NUMBER;
use crate::table::{lemma_put_next, table_take, table_wf};
use crate::text::{lemma_words_of_join, signed_hex};
use crate::types::library::plain;
use crate::types::round_trip::lemma_join_is_line;
use crate::types::stub::{
    stub_line, stub_member_of, stub_syms, stub_text, target_text, StubMemberView, StubTargetView,
};
use crate::types::symbol_table::{symbol_text, SymbolName};
use crate::utils::{lemma_newlines_concat, lemma_newlines_none, newlines};
use vstd::prelude::*;

verus! {

/// A text that is joined from lines has one line feed less than lines.
pub proof fn lemma_newlines_join(lines: Seq<Seq<char>>)
    requires
        lines.len() > 0,
        forall|i: int| 0 <= i < lines.len() ==> lacks(#[trigger] lines[i], '\n'),
    ensures
        newlines(join_lines(lines), join_lines(lines).len() as int) == lines.len() - 1,
    decreases lines.len(),
{
    let sep = seq!['\n'];
    let text = join(lines, sep);
    if lines.len() == 1 {
        assert(lacks(lines[0], '\n'));
        lemma_newlines_none(text, text.len() as int);
    } else {
        let front = lines.drop_last();
        let last = lines.last();
        assert(lacks(last, '\n'));
        assert forall|i: int| 0 <= i < front.len() implies lacks(#[trigger] front[i], '\n') by {
            assert(front[i] == lines[i]);
        }
        lemma_newlines_join(front);
        let head = join(front, sep);
        assert(text == head + sep + last);
        lemma_newlines_concat(head, sep, 1);
        assert(newlines(sep, 1) == 1) by {
            assert(newlines(sep, 0) == 0);
        }
        assert((head + sep).len() == head.len() + 1);
        lemma_newlines_none(last, last.len() as int);
        lemma_newlines_concat(head + sep, last, last.len() as int);
    }
}

/// The lines of the first `n` modules of a library file, one module after the other.
pub open spec fn module_lines(objects: Seq<ObjectView>, n: int) -> Seq<Seq<char>>
    decreases n,
{
    if n <= 0 {
        Seq::empty()
    } else {
        module_lines(objects, n - 1) + object_lines(objects[n - 1])
    }
}

/// The lines of a library file: the header, the lines of the modules, the directory.
pub open spec fn library_lines(objects: Seq<ObjectView>) -> Seq<Seq<char>> {
    seq![library_header(objects)] + module_lines(objects, objects.len() as int) + Seq::new(
        objects.len(),
        |i: int| directory_entry(objects, i),
    )
}

/// The lines of a module are its header line and the lines of its body.
pub proof fn lemma_object_lines(o: ObjectView)
    ensures
        object_lines(o) == seq![crate::types::object::header_line(o.nsegs, o.nsyms, o.nrels)]
            + body_lines(o),
        object_lines(o).len() > 0,
{
    assert(object_lines(o) =~= seq![crate::types::object::header_line(o.nsegs, o.nsyms, o.nrels)]
        + body_lines(o));
}

/// The lines of a printable module are lines, the last is not empty, and
/// the module takes as many lines in a library file as it has.
pub proof fn lemma_module_lines(o: ObjectView)
    requires
        printable(o),
    ensures
        are_lines(object_lines(o)),
        object_lines(o).len() > 0,
        object_lines(o).last().len() > 0,
        body_len(o) == object_lines(o).len(),
{
    let lines = object_lines(o);
    let body = body_lines(o);
    lemma_object_lines(o);
    lemma_header_reads_back(o.nsegs, o.nsyms, o.nrels);
    lemma_body_reads_back(o);
    assert forall|i: int| 0 <= i < lines.len() implies is_line(#[trigger] lines[i]) by {
        if i > 0 {
            assert(lines[i] == body[i - 1]);
        }
    }
    if body.len() > 0 {
        assert(lines.last() == body.last());
    }
    assert forall|i: int| 0 <= i < lines.len() implies lacks(#[trigger] lines[i], '\n') by {
        assert(is_line(lines[i]));
    }
    lemma_newlines_join(lines);
}

/// Whether a library file of the given modules reads back: the modules
/// are printable, the names that they define hold no blanks, and the lines
/// of the file can be counted in a machine word.
pub open spec fn readable_library(objects: Seq<ObjectView>) -> bool {
    &&& forall|i: int| 0 <= i < objects.len() ==> printable(#[trigger] objects[i])
    &&& forall|i: int, j: int|
        0 <= i < objects.len() && 0 <= j < objects[i].symbol_table.len() ==> is_word(
            (#[trigger] objects[i].symbol_table[j]).st_name.text,
            false,
        )
    &&& objects.len() <= usize::MAX
    &&& line_of(objects, objects.len() as int) <= usize::MAX
}

/// The lines of the modules of a library file: how many there are, that
/// they are lines, and where the lines of each module stand.
pub proof fn lemma_module_lines_of(objects: Seq<ObjectView>, n: int)
    requires
        readable_library(objects),
        0 <= n <= objects.len(),
    ensures
        module_lines(objects, n).len() == line_of(objects, n) - 2,
        are_lines(module_lines(objects, n)),
        n > 0 ==> module_lines(objects, n).last().len() > 0,
        forall|i: int|
            0 <= i < n ==> #[trigger] module_lines(objects, n).subrange(
                line_of(objects, i) - 2,
                line_of(objects, i) - 2 + body_len(objects[i]),
            ) == object_lines(objects[i]),
    decreases n,
{
    if n > 0 {
        lemma_module_lines_of(objects, n - 1);
        let o = objects[n - 1];
        assert(printable(o));
        lemma_module_lines(o);
        let before = module_lines(objects, n - 1);
        let all = module_lines(objects, n);
        assert(all == before + object_lines(o));
        assert forall|i: int| 0 <= i < all.len() implies is_line(#[trigger] all[i]) by {
            if i < before.len() {
                assert(all[i] == before[i]);
            } else {
                assert(all[i] == object_lines(o)[i - before.len()]);
            }
        }
        assert(all.last() == object_lines(o).last());
        assert forall|i: int| 0 <= i < n implies #[trigger] all.subrange(
            line_of(objects, i) - 2,
            line_of(objects, i) - 2 + body_len(objects[i]),
        ) == object_lines(objects[i]) by {
            lemma_line_of_grows(objects, i, n - 1);
            if i < n - 1 {
                lemma_line_of_grows(objects, i + 1, n - 1);
                assert(printable(objects[i]));
                lemma_module_lines(objects[i]);
                assert(all.subrange(
                    line_of(objects, i) - 2,
                    line_of(objects, i) - 2 + body_len(objects[i]),
                ) =~= before.subrange(
                    line_of(objects, i) - 2,
                    line_of(objects, i) - 2 + body_len(objects[i]),
                ));
            } else {
                assert(all.subrange(
                    line_of(objects, i) - 2,
                    line_of(objects, i) - 2 + body_len(objects[i]),
                ) =~= object_lines(o));
            }
        }
    }
}

/// The text of a library file is its lines, joined.
pub proof fn lemma_library_text(objects: Seq<ObjectView>)
    requires
        readable_library(objects),
    ensures
        library_file_text(objects) == join_lines(library_lines(objects)),
{
    let sep = seq!['\n'];
    let header = seq![library_header(objects)];
    let texts = Seq::new(objects.len(), |i: int| object_text(objects[i], false));
    let details = Seq::new(objects.len(), |i: int| directory_entry(objects, i));
    let n = objects.len() as int;
    lemma_texts_join(objects, n);
    assert(texts.take(n) =~= texts);
    if n > 0 {
        lemma_join_concat(header + texts, details, sep);
        lemma_join_concat(header + module_lines(objects, n), details, sep);
    } else {
        assert(header + texts + details =~= header + texts);
        assert(header + module_lines(objects, n) + details =~= header + module_lines(objects, n));
    }
}

/// The header and the texts of the first `k` modules join to what the
/// header and the lines of those modules join to.
pub proof fn lemma_texts_join(objects: Seq<ObjectView>, k: int)
    requires
        readable_library(objects),
        0 <= k <= objects.len(),
    ensures
        join(
            seq![library_header(objects)] + Seq::new(
                objects.len(),
                |i: int| object_text(objects[i], false),
            ).take(k),
            seq!['\n'],
        ) == join(seq![library_header(objects)] + module_lines(objects, k), seq!['\n']),
    decreases k,
{
    let sep = seq!['\n'];
    let header = seq![library_header(objects)];
    let texts = Seq::new(objects.len(), |i: int| object_text(objects[i], false));
    if k == 0 {
        assert(header + texts.take(0) =~= header + module_lines(objects, 0));
    } else {
        lemma_texts_join(objects, k - 1);
        let o = objects[k - 1];
        assert(printable(o));
        lemma_module_lines(o);
        let left = header + texts.take(k);
        assert(left.drop_last() =~= header + texts.take(k - 1));
        assert(left.last() == object_text(o, false));
        assert(header + module_lines(objects, k) =~= (header + module_lines(objects, k - 1))
            + object_lines(o));
        lemma_join_concat(header + module_lines(objects, k - 1), object_lines(o), sep);
    }
}


/// The names that a directory line lists: the names that the module
/// defines, or one empty name where it defines none.
pub open spec fn listed_names(o: ObjectView) -> Seq<Seq<char>> {
    let names = defined_names(o.symbol_table, o.symbol_table.len() as int);
    if names.len() == 0 {
        seq![Seq::empty()]
    } else {
        names
    }
}

/// The fields of the directory line of the module at `i`.
pub open spec fn entry_fields(objects: Seq<ObjectView>, i: int) -> Seq<Seq<char>> {
    seq![hex_digits(line_of(objects, i) as nat), hex_digits(body_len(objects[i]) as nat)]
        + listed_names(objects[i])
}

/// The symbol directory that the first `n` rows of fields make: each
/// field of a row from the third on is a name that leads to the place of
/// the row.
pub open spec fn listed_symbols(rows: Seq<Seq<Seq<char>>>, n: int) -> TableModel<SymbolId, usize>
    decreases n,
{
    if n <= 0 {
        table_empty()
    } else {
        add_symbols(
            listed_symbols(rows, n - 1),
            rows[n - 1],
            2,
            rows[n - 1].len() as int,
            (n - 1) as usize,
        )
    }
}

/// The symbol directory of a library file of the first `n` modules: each
/// listed name leads to the module that lists it.
pub open spec fn directory_symbols(objects: Seq<ObjectView>, n: int) -> TableModel<SymbolId, usize> {
    listed_symbols(Seq::new(objects.len(), |i: int| entry_fields(objects, i)), n)
}

/// The names that a module of a readable library defines are fields.
pub proof fn lemma_defined_names(syms: Seq<SymbolView>, n: int)
    requires
        0 <= n <= syms.len(),
        forall|j: int| 0 <= j < syms.len() ==> is_word((#[trigger] syms[j]).st_name.text, false),
    ensures
        forall|k: int|
            0 <= k < defined_names(syms, n).len() ==> is_word(
                #[trigger] defined_names(syms, n)[k],
                false,
            ),
    decreases n,
{
    if n > 0 {
        lemma_defined_names(syms, n - 1);
        let names = defined_names(syms, n);
        let before = defined_names(syms, n - 1);
        assert forall|k: int| 0 <= k < names.len() implies is_word(#[trigger] names[k], false) by {
            if k < before.len() {
                assert(names[k] == before[k]);
            } else {
                assert(is_word(syms[n - 1].st_name.text, false));
            }
        }
    }
}

/// The directory line of a module is a line, and its fields are the place
/// of the module, the number of its lines, and the names that it lists.
pub proof fn lemma_entry_fields(objects: Seq<ObjectView>, i: int)
    requires
        readable_library(objects),
        0 <= i < objects.len(),
    ensures
        fields_of(directory_entry(objects, i)) == entry_fields(objects, i),
        is_line(directory_entry(objects, i)),
        directory_entry(objects, i).len() > 0,
        2 <= line_of(objects, i),
        1 <= body_len(objects[i]),
        line_of(objects, i) + body_len(objects[i]) <= line_of(objects, objects.len() as int),
{
    let o = objects[i];
    let sep = seq![' '];
    let off = hex_digits(line_of(objects, i) as nat);
    let len = hex_digits(body_len(o) as nat);
    let names = defined_names(o.symbol_table, o.symbol_table.len() as int);
    reveal_strlit(" ");
    assert(" "@ =~= sep);
    assert(printable(o));
    lemma_module_lines(o);
    lemma_line_of_grows(objects, i, i + 1);
    lemma_line_of_grows(objects, i + 1, objects.len() as int);
    lemma_hex_reads_back(line_of(objects, i));
    lemma_hex_reads_back(body_len(o));
    lemma_word_is_field(off);
    lemma_word_is_field(len);
    lemma_defined_names(o.symbol_table, o.symbol_table.len() as int);
    let fields = entry_fields(objects, i);
    let front = seq![off, len];
    lemma_join_two(off, len, sep);
    if names.len() == 0 {
        assert(fields =~= seq![off, len, Seq::<char>::empty()]);
        lemma_join_three(off, len, Seq::<char>::empty(), sep);
        assert(join(names, sep) =~= Seq::<char>::empty());
    } else {
        lemma_join_concat(front, names, sep);
        assert(fields == front + names);
    }
    assert(directory_entry(objects, i) =~= join(fields, sep));
    assert forall|k: int| 0 <= k < fields.len() implies is_field(#[trigger] fields[k]) && lacks(
        fields[k],
        '\n',
    ) && lacks(fields[k], '\r') by {
        if k == 0 {
            assert(is_line(off));
            lemma_no_line_ends(off);
        } else if k == 1 {
            lemma_no_line_ends(len);
        } else if names.len() > 0 {
            assert(fields[k] == names[k - 2]);
            assert(is_word(names[k - 2], false));
            lemma_word_is_field(names[k - 2]);
            lemma_no_line_ends(names[k - 2]);
        }
    }
    lemma_fields_of_join(fields);
    lemma_join_fields_is_line(fields);
    assert(directory_entry(objects, i)[0] == off[0]);
}

/// A word without blanks holds neither a line feed nor a carriage return.
pub proof fn lemma_no_line_ends(w: Seq<char>)
    requires
        is_word(w, false),
    ensures
        lacks(w, '\n'),
        lacks(w, '\r'),
{
    assert forall|i: int| 0 <= i < w.len() implies w[i] != '\n' && w[i] != '\r' by {
        assert(!is_blank(w[i], false));
    }
}

/// The header of a library file is a line, and says how many modules there
/// are and where the directory begins.
pub proof fn lemma_library_header(objects: Seq<ObjectView>)
    requires
        readable_library(objects),
    ensures
        file_header(library_header(objects)) == Some(
            (objects.len() as int, line_of(objects, objects.len() as int)),
        ),
        is_line(library_header(objects)),
        library_header(objects).len() > 0,
{
    let sep = seq![' '];
    let n = hex_digits(objects.len());
    let dir = hex_digits(line_of(objects, objects.len() as int) as nat);
    reveal_strlit(" ");
    reveal_strlit("LIBRARY");
    assert(" "@ =~= sep);
    lemma_line_of_grows(objects, 0, objects.len() as int);
    lemma_hex_reads_back(objects.len() as int);
    lemma_hex_reads_back(line_of(objects, objects.len() as int));
    let fields = seq![MAGIC_NUMBER_LIB@, n, dir];
    lemma_join_three(MAGIC_NUMBER_LIB@, n, dir, sep);
    assert(library_header(objects) =~= join(fields, sep));
    assert(is_word(MAGIC_NUMBER_LIB@, false));
    assert forall|k: int| 0 <= k < fields.len() implies is_field(#[trigger] fields[k]) && lacks(
        fields[k],
        '\n',
    ) && lacks(fields[k], '\r') by {
        lemma_word_is_field(fields[k]);
        lemma_no_line_ends(fields[k]);
    }
    lemma_fields_of_join(fields);
    lemma_join_fields_is_line(fields);
    assert(library_header(objects)[0] == MAGIC_NUMBER_LIB@[0]);
}

/// The lines of the text of a library file.
pub proof fn lemma_library_lines(objects: Seq<ObjectView>)
    requires
        readable_library(objects),
    ensures
        lines_of(library_file_text(objects)) == library_lines(objects),
        library_lines(objects).len() == line_of(objects, objects.len() as int) - 1
            + objects.len(),
        library_lines(objects)[0] == library_header(objects),
        forall|i: int|
            0 <= i < objects.len() ==> #[trigger] library_lines(objects)[line_of(
                objects,
                objects.len() as int,
            ) - 1 + i] == directory_entry(objects, i),
        forall|i: int|
            0 <= i < objects.len() ==> #[trigger] library_lines(objects).subrange(
                line_of(objects, i) - 1,
                line_of(objects, i) - 1 + body_len(objects[i]),
            ) == object_lines(objects[i]),
{
    let n = objects.len() as int;
    let lines = library_lines(objects);
    let mods = module_lines(objects, n);
    let details = Seq::new(objects.len(), |i: int| directory_entry(objects, i));
    lemma_library_text(objects);
    lemma_library_header(objects);
    lemma_module_lines_of(objects, n);
    assert(lines.len() == 1 + mods.len() + n);
    assert forall|k: int| 0 <= k < lines.len() implies is_line(#[trigger] lines[k]) && (k
        == lines.len() - 1 ==> lines[k].len() > 0) by {
        if k == 0 {
        } else if k < 1 + mods.len() {
            assert(lines[k] == mods[k - 1]);
            if k == lines.len() - 1 {
                assert(n == 0);
            }
        } else {
            assert(lines[k] == details[k - 1 - mods.len()]);
            lemma_entry_fields(objects, k - 1 - mods.len());
        }
    }
    lemma_lines_of_join(lines);
    assert forall|i: int| 0 <= i < n implies #[trigger] lines[line_of(objects, n) - 1 + i]
        == directory_entry(objects, i) by {
        assert(lines[1 + mods.len() + i] == details[i]);
    }
    assert forall|i: int| 0 <= i < n implies #[trigger] lines.subrange(
        line_of(objects, i) - 1,
        line_of(objects, i) - 1 + body_len(objects[i]),
    ) == object_lines(objects[i]) by {
        lemma_entry_fields(objects, i);
        assert(mods.subrange(
            line_of(objects, i) - 2,
            line_of(objects, i) - 2 + body_len(objects[i]),
        ) == object_lines(objects[i]));
        assert(lines.subrange(
            line_of(objects, i) - 1,
            line_of(objects, i) - 1 + body_len(objects[i]),
        ) =~= mods.subrange(
            line_of(objects, i) - 2,
            line_of(objects, i) - 2 + body_len(objects[i]),
        ));
    }
}

/// Where the directory line and the lines of the module at `i` stand in a library file.
pub proof fn lemma_library_lines_at(objects: Seq<ObjectView>, i: int)
    requires
        readable_library(objects),
        0 <= i < objects.len(),
    ensures
        0 <= line_of(objects, objects.len() as int) + i - 1 < library_lines(objects).len(),
        library_lines(objects)[line_of(objects, objects.len() as int) + i - 1] == directory_entry(
            objects,
            i,
        ),
        line_of(objects, i) - 1 + body_len(objects[i]) <= library_lines(objects).len(),
        library_lines(objects).subrange(
            line_of(objects, i) - 1,
            line_of(objects, i) - 1 + body_len(objects[i]),
        ) == object_lines(objects[i]),
{
    lemma_library_lines(objects);
    lemma_entry_fields(objects, i);
    let n = objects.len() as int;
    assert(library_lines(objects)[line_of(objects, n) - 1 + i] == directory_entry(objects, i));
}

/// What the first two fields of the directory line of the module at `i` say.
pub proof fn lemma_entry_numbers(objects: Seq<ObjectView>, i: int)
    requires
        readable_library(objects),
        0 <= i < objects.len(),
    ensures
        entry_fields(objects, i).len() >= 2,
        unsigned_hex(entry_fields(objects, i)[0], usize::MAX as int) == Some(line_of(objects, i)),
        unsigned_hex(entry_fields(objects, i)[1], usize::MAX as int) == Some(
            body_len(objects[i]),
        ),
{
    lemma_entry_fields(objects, i);
    lemma_hex_reads_back(line_of(objects, i));
    lemma_hex_reads_back(body_len(objects[i]));
}

/// The directory line of the module at `i` of a library file leads back to the module.
pub proof fn lemma_file_module(objects: Seq<ObjectView>, i: int)
    requires
        readable_library(objects),
        0 <= i < objects.len(),
    ensures
        file_module(library_lines(objects), line_of(objects, objects.len() as int) + i - 1)
            == Ok::<ObjectView, LibError>(objects[i]),
        fields_of(library_lines(objects)[line_of(objects, objects.len() as int) + i - 1])
            == entry_fields(objects, i),
{
    let o = objects[i];
    lemma_library_lines_at(objects, i);
    lemma_entry_fields(objects, i);
    lemma_entry_numbers(objects, i);
    assert(printable(o));
    lemma_module_reads_back(o);
    assert(join_lines(seq![MAGIC_NUMBER@] + object_lines(o)) == object_text(o, true));
}

/// Directory lines that lead to modules read as the modules and the names
/// that the lines list.
pub proof fn lemma_entries_read(
    lines: Seq<Seq<char>>,
    dir: int,
    objects: Seq<ObjectView>,
    rows: Seq<Seq<Seq<char>>>,
    k: int,
)
    requires
        0 <= k <= objects.len(),
        k <= rows.len(),
        forall|i: int|
            0 <= i < k ==> #[trigger] file_module(lines, dir + i - 1) == Ok::<
                ObjectView,
                LibError,
            >(objects[i]),
        forall|i: int| 0 <= i < k ==> fields_of(lines[dir + i - 1]) == #[trigger] rows[i],
    ensures
        file_entries(lines, dir, k) == Ok::<FileParts, LibError>(
            FileParts { symbols: listed_symbols(rows, k), objects: objects.take(k) },
        ),
    decreases k,
{
    if k == 0 {
        reveal_with_fuel(file_entries, 2);
        assert(objects.take(0) =~= Seq::<ObjectView>::empty());
    } else {
        lemma_entries_read(lines, dir, objects, rows, k - 1);
        lemma_file_entries_step(lines, dir, k - 1);
        assert(file_module(lines, dir + (k - 1) - 1) == Ok::<ObjectView, LibError>(objects[k - 1]));
        assert(fields_of(lines[dir + (k - 1) - 1]) == rows[k - 1]);
        assert(objects.take(k - 1).push(objects[k - 1]) =~= objects.take(k));
    }
}

/// The directory of a library file reads back as the modules and their names.
pub proof fn lemma_file_entries(objects: Seq<ObjectView>)
    requires
        readable_library(objects),
    ensures
        file_entries(
            library_lines(objects),
            line_of(objects, objects.len() as int),
            objects.len() as int,
        ) == Ok::<FileParts, LibError>(
            FileParts { symbols: directory_symbols(objects, objects.len() as int), objects },
        ),
{
    let lines = library_lines(objects);
    let dir = line_of(objects, objects.len() as int);
    let n = objects.len() as int;
    let rows = Seq::new(objects.len(), |i: int| entry_fields(objects, i));
    assert forall|i: int| 0 <= i < n implies #[trigger] file_module(lines, dir + i - 1) == Ok::<
        ObjectView,
        LibError,
    >(objects[i]) by {
        lemma_file_module(objects, i);
    }
    assert forall|i: int| 0 <= i < n implies fields_of(lines[dir + i - 1]) == #[trigger] rows[i] by {
        lemma_file_module(objects, i);
    }
    lemma_entries_read(lines, dir, objects, rows, n);
    assert(objects.take(n) =~= objects);
}

/// What the librarian writes as a library file reads back as a library of
/// the same modules, in which each name that a module defines leads to
/// that module.
pub proof fn lemma_library_file_reads_back(libname: Seq<char>, objects: Seq<ObjectView>)
    requires
        readable_library(objects),
    ensures
        file_lib_of(libname, library_file_text(objects)) == Ok::<LibView, LibError>(
            LibView::FileLib {
                libname,
                symbols: directory_symbols(objects, objects.len() as int),
                objects,
            },
        ),
{
    let n = objects.len() as int;
    lemma_library_lines(objects);
    lemma_library_header(objects);
    lemma_file_entries(objects);
}


/// The map of a library directory of the first `n` modules: each module
/// with the set of the names that it defines.
pub open spec fn map_symbols(objects: TableModel<Seq<char>, ObjectView>, n: int) -> TableModel<
    Seq<char>,
    TableModel<SymbolId, ()>,
>
    decreases n,
{
    if n <= 0 {
        table_empty()
    } else {
        let names = seq![objects.keys[n - 1]] + defined_names(
            objects.values[n - 1].symbol_table,
            objects.values[n - 1].symbol_table.len() as int,
        );
        table_put::<String, TableModel<SymbolId, ()>>(
            map_symbols(objects, n - 1),
            objects.keys[n - 1],
            symbol_set(names, 1, names.len() as int),
        )
    }
}

/// Whether the `MAP` file of the given modules reads back: the names of
/// the modules are words, and so are the names that the modules define.
pub open spec fn readable_map(objects: TableModel<Seq<char>, ObjectView>) -> bool {
    &&& objects.keys.len() == objects.values.len()
    &&& forall|i: int| 0 <= i < objects.keys.len() ==> is_word(#[trigger] objects.keys[i], false)
    &&& forall|i: int, j: int|
        0 <= i < objects.values.len() && 0 <= j < objects.values[i].symbol_table.len() ==> is_word(
            (#[trigger] objects.values[i].symbol_table[j]).st_name.text,
            false,
        )
}

/// The line of a module in a `MAP` file is a line that is not empty, and
/// its fields are the name of the module and the names that it defines.
pub proof fn lemma_map_line(objects: TableModel<Seq<char>, ObjectView>, i: int)
    requires
        readable_map(objects),
        0 <= i < objects.keys.len(),
    ensures
        fields_of(map_line(objects.keys[i], objects.values[i])) == seq![objects.keys[i]]
            + defined_names(
            objects.values[i].symbol_table,
            objects.values[i].symbol_table.len() as int,
        ),
        is_line(map_line(objects.keys[i], objects.values[i])),
        map_line(objects.keys[i], objects.values[i]).len() > 0,
{
    let o = objects.values[i];
    let key = objects.keys[i];
    let names = defined_names(o.symbol_table, o.symbol_table.len() as int);
    let fields = seq![key] + names;
    lemma_defined_names(o.symbol_table, o.symbol_table.len() as int);
    assert(is_word(key, false));
    assert forall|k: int| 0 <= k < fields.len() implies is_field(#[trigger] fields[k]) && lacks(
        fields[k],
        '\n',
    ) && lacks(fields[k], '\r') by {
        if k > 0 {
            assert(fields[k] == names[k - 1]);
        }
        assert(is_word(fields[k], false));
        lemma_word_is_field(fields[k]);
        lemma_no_line_ends(fields[k]);
    }
    lemma_fields_of_join(fields);
    lemma_join_fields_is_line(fields);
    crate::text::lemma_join_front(fields, seq![' ']);
    assert(map_line(key, o)[0] == key[0]);
}

/// The lines of a `MAP` file read back as the map of the modules.
pub proof fn lemma_read_map(objects: TableModel<Seq<char>, ObjectView>, n: int)
    requires
        readable_map(objects),
        0 <= n <= objects.keys.len(),
    ensures
        read_map(
            table_empty(),
            Seq::new(objects.keys.len(), |i: int| map_line(objects.keys[i], objects.values[i])),
            n,
        ) == map_symbols(objects, n),
    decreases n,
{
    if n > 0 {
        lemma_read_map(objects, n - 1);
        lemma_map_line(objects, n - 1);
    }
}

/// The `MAP` file that the librarian writes for the given modules reads
/// back as the map of the modules.
pub proof fn lemma_map_file_reads_back(objects: TableModel<Seq<char>, ObjectView>)
    requires
        readable_map(objects),
    ensures
        read_map(
            table_empty(),
            lines_of(map_file_text(objects)),
            lines_of(map_file_text(objects)).len() as int,
        ) == map_symbols(objects, objects.keys.len() as int),
{
    let lines = Seq::new(
        objects.keys.len(),
        |i: int| map_line(objects.keys[i], objects.values[i]),
    );
    assert forall|i: int| 0 <= i < lines.len() implies is_line(#[trigger] lines[i])
        && lines[i].len() > 0 by {
        lemma_map_line(objects, i);
    }
    lemma_lines_of_join(lines);
    lemma_read_map(objects, objects.keys.len() as int);
}

/// Object files, none of which is named `MAP`, are read into a library
/// directory as they are read as object files.
pub proof fn lemma_dir_files_are_objects(files: Seq<(Seq<char>, Seq<char>)>, n: int)
    requires
        0 <= n <= files.len(),
        forall|i: int| 0 <= i < files.len() ==> (#[trigger] files[i]).0 != MAP_FILE_NAME@,
    ensures
        match objects_of(files, n) {
            Ok(objects) => dir_files(files, n) == Ok::<DirParts, LibError>(
                DirParts { symbols: table_empty(), objects },
            ),
            Err(e) => dir_files(files, n) == Err::<DirParts, LibError>(e),
        },
    decreases n,
{
    if n > 0 {
        lemma_dir_files_are_objects(files, n - 1);
        assert(files[n - 1].0 != MAP_FILE_NAME@);
    }
}

/// Reading the first files of a directory does not depend on the files behind them.
pub proof fn lemma_dir_files_prefix(
    files: Seq<(Seq<char>, Seq<char>)>,
    more: Seq<(Seq<char>, Seq<char>)>,
    n: int,
)
    requires
        0 <= n <= files.len(),
    ensures
        dir_files(files + more, n) == dir_files(files, n),
    decreases n,
{
    if n > 0 {
        lemma_dir_files_prefix(files, more, n - 1);
        assert((files + more)[n - 1] == files[n - 1]);
    }
}

/// What the librarian writes as a library directory reads back as a
/// library of the same modules, whose map lists for each module the names
/// that the module defines.
pub proof fn lemma_library_dir_reads_back(libname: Seq<char>, files: Seq<(Seq<char>, Seq<char>)>)
    requires
        objects_of(files, files.len() as int) is Ok,
        readable_map(objects_of(files, files.len() as int)->Ok_0),
        forall|i: int| 0 <= i < files.len() ==> (#[trigger] files[i]).0 != MAP_FILE_NAME@,
    ensures
        dirlib_files(files) is Ok,
        dir_lib_of(libname, dirlib_files(files)->Ok_0) == Ok::<LibView, LibError>(
            LibView::DirLib {
                libname,
                symbols: map_symbols(
                    objects_of(files, files.len() as int)->Ok_0,
                    objects_of(files, files.len() as int)->Ok_0.keys.len() as int,
                ),
                objects: objects_of(files, files.len() as int)->Ok_0,
            },
        ),
{
    let n = files.len() as int;
    let objects = objects_of(files, n)->Ok_0;
    let map = (MAP_FILE_NAME@, map_file_text(objects));
    let all = files.push(map);
    assert(dirlib_files(files) == Ok::<Seq<(Seq<char>, Seq<char>)>, LibError>(all));
    lemma_dir_files_are_objects(files, n);
    assert(all =~= files + seq![map]);
    lemma_dir_files_prefix(files, seq![map], n);
    assert(all[n] == map);
    lemma_map_file_reads_back(objects);
}


/// Whether a stub member can be written so that it reads back: its table
/// is well formed; the names of its symbols are plain words; an address is
/// not negative, and the name of a library is a word that does not read as
/// an address.
pub open spec fn readable_member(m: StubMemberView) -> bool {
    &&& table_wf::<SymbolName, StubTargetView>(m.syms)
    &&& forall|i: int|
        0 <= i < m.syms.keys.len() ==> !(#[trigger] m.syms.keys[i]).wrapped && is_word(
            m.syms.keys[i].text,
            true,
        )
    &&& forall|i: int|
        0 <= i < m.syms.values.len() ==> match #[trigger] m.syms.values[i] {
            StubTargetView::Addr(a) => a >= 0,
            StubTargetView::Lib(l) => is_word(l, true) && signed_hex(l) is None,
        }
}

/// The line of the symbol at `i` of a stub member.
pub open spec fn member_line(m: StubMemberView, i: int) -> Seq<char> {
    symbol_text(m.syms.keys[i]) + " "@ + target_text(m.syms.values[i])
}

/// The line of a symbol of a stub member reads back as the symbol and its target.
pub proof fn lemma_member_line(m: StubMemberView, i: int)
    requires
        readable_member(m),
        0 <= i < m.syms.keys.len(),
    ensures
        stub_line(member_line(m, i)) == Ok::<(SymbolId, StubTargetView), ParseError>(
            (m.syms.keys[i], m.syms.values[i]),
        ),
        is_line(member_line(m, i)),
        member_line(m, i).len() > 0,
{
    let key = m.syms.keys[i];
    let target = m.syms.values[i];
    let sep = seq![' '];
    reveal_strlit(" ");
    assert(" "@ =~= sep);
    assert(!key.wrapped && is_word(key.text, true));
    assert(key == plain(key.text));
    let words = seq![key.text, target_text(target)];
    match target {
        StubTargetView::Addr(a) => {
            lemma_hex_reads_back(a as int);
        },
        StubTargetView::Lib(l) => {},
    }
    assert(crate::text::are_words(words, true)) by {
        assert(is_word(words[0], true));
        assert(is_word(words[1], true));
    }
    lemma_join_two(key.text, target_text(target), sep);
    lemma_words_of_join(words, true);
    lemma_join_is_line(words, true);
}

/// The lines of a stub member behind the magic line read back as its symbols.
pub proof fn lemma_stub_syms(m: StubMemberView, k: int)
    requires
        readable_member(m),
        0 <= k <= m.syms.keys.len(),
    ensures
        stub_syms(
            seq![STUB_MAGIC_NUMBER@] + Seq::new(m.syms.keys.len(), |i: int| member_line(m, i)),
            k + 1,
        ) == Ok::<TableModel<SymbolId, StubTargetView>, ParseError>(table_take(m.syms, k)),
    decreases k,
{
    let lines = seq![STUB_MAGIC_NUMBER@] + Seq::new(
        m.syms.keys.len(),
        |i: int| member_line(m, i),
    );
    if k == 0 {
        assert(table_take(m.syms, 0).keys =~= Seq::<SymbolId>::empty());
        assert(table_take(m.syms, 0).values =~= Seq::<StubTargetView>::empty());
    } else {
        lemma_stub_syms(m, k - 1);
        lemma_member_line(m, k - 1);
        assert(lines[k] == member_line(m, k - 1));
        lemma_put_next::<SymbolName, StubTargetView>(m.syms, k - 1);
    }
}

/// What a stub member is written as reads back as the member.
pub proof fn lemma_stub_member_reads_back(m: StubMemberView)
    requires
        readable_member(m),
    ensures
        stub_member_of(m.name, stub_text(m)) == Ok::<StubMemberView, ParseError>(m),
{
    let n = m.syms.keys.len() as int;
    let lines = seq![STUB_MAGIC_NUMBER@] + Seq::new(
        m.syms.keys.len(),
        |i: int| member_line(m, i),
    );
    reveal_strlit("STUB");
    assert forall|i: int| 0 <= i < lines.len() implies is_line(#[trigger] lines[i])
        && lines[i].len() > 0 by {
        if i > 0 {
            assert(lines[i] == member_line(m, i - 1));
            lemma_member_line(m, i - 1);
        }
    }
    lemma_lines_of_join(lines);
    lemma_stub_syms(m, n);
    assert(table_take(m.syms, n).keys =~= m.syms.keys);
    assert(table_take(m.syms, n).values =~= m.syms.values);
    assert(Seq::new(
        m.syms.keys.len(),
        |i: int| symbol_text(m.syms.keys[i]) + " "@ + target_text(m.syms.values[i]),
    ) =~= Seq::new(m.syms.keys.len(), |i: int| member_line(m, i)));
}

} // verus!
