//! The truth table that a function is given by.
use crate::table_parser::{ascending, cells, read_csv, rows, table_reading, texts, TableError};
use vstd::prelude::*;

verus! {

/// A truth table as contracts see it: the names in the header, the input
/// rows, and the output of each row.
pub ghost struct Table {
    pub variables: Seq<Seq<char>>,
    pub inputs: Seq<Seq<bool>>,
    pub output: Seq<bool>,
}

impl Table {
    /// The number of input variables: the length of the first row, and
    /// zero where there is no row.
    pub open spec fn amount_of_variables(self) -> nat {
        if self.inputs.len() == 0 {
            0
        } else {
            self.inputs[0].len()
        }
    }

    /// Each row has an output, each row has one input for each name but
    /// the last, which names the output, and the rows count up from zero.
    pub open spec fn well_formed(self) -> bool {
        &&& self.output.len() == self.inputs.len()
        &&& forall|i: int|
            0 <= i < self.inputs.len() ==> (#[trigger] self.inputs[i]).len() + 1
                == self.variables.len()
        &&& ascending(self.inputs)
    }

    /// The table that a header and records are read as.
    pub open spec fn reading(headers: Seq<Seq<char>>, records: Seq<Seq<Seq<char>>>) -> Result<
        Table,
        TableError,
    > {
        match table_reading(headers, records) {
            Ok((variables, inputs, output)) => Ok(Table { variables, inputs, output }),
            Err(error) => Err(error),
        }
    }
}

/// A truth table: the names of its columns, its input rows in ascending
/// order, and the output of each row.
pub struct TruthTable {
    variables: Vec<String>,
    inputs: Vec<Vec<bool>>,
    output: Vec<bool>,
}

impl View for TruthTable {
    type V = Table;

    closed spec fn view(&self) -> Table {
        Table {
            variables: texts(self.variables@),
            inputs: rows(self.inputs@),
            output: self.output@,
        }
    }
}

impl TruthTable {
    /// The table is well formed: each row has an output and one input for
    /// each name but the last, and the rows count up from zero.
    pub closed spec fn wf(&self) -> bool {
        self@.well_formed()
    }

    /// A well-formed truth table stands for a well-formed table.
    pub proof fn lemma_wf(&self)
        requires
            self.wf(),
        ensures
            self@.well_formed(),
    {
    }

    /// The input rows, in their order.
    pub fn input_rows(&self) -> (inputs: &Vec<Vec<bool>>)
        ensures
            rows(inputs@) == self@.inputs,
    {
        &self.inputs
    }

    /// A copy of the names in the header: those of the inputs, and last
    /// that of the output.
    pub fn variables_names(&self) -> (names: Vec<String>)
        ensures
            texts(names@) == self@.variables,
    {
        let mut names: Vec<String> = Vec::new();
        let mut index: usize = 0;
        while index < self.variables.len()
            invariant
                index <= self.variables@.len(),
                names@.len() == index,
                forall|i: int| 0 <= i < index ==> (#[trigger] names@[i])@ == self.variables@[i]@,
            decreases self.variables@.len() - index,
        {
            names.push(self.variables[index].clone());
            index += 1;
        }
        names
    }

    /// The number of input variables. In a well-formed table the header
    /// has one name more, so that the number is below the largest.
    pub fn amount_of_variables(&self) -> (n: usize)
        ensures
            n == self@.amount_of_variables(),
            self.wf() ==> n < usize::MAX,
    {
        if self.inputs.len() == 0 {
            0
        } else {
            let header = self.variables.len();
            assert(self@.inputs[0] == self.inputs@[0]@);
            assert(self.wf() ==> self@.inputs[0].len() + 1 == header);
            self.inputs[0].len()
        }
    }

    /// The number of rows.
    pub fn amount_of_rows(&self) -> (n: usize)
        ensures
            n == self@.inputs.len(),
    {
        self.inputs.len()
    }

    /// The output of row `index`.
    pub fn row_value(&self, index: usize) -> (value: bool)
        requires
            index < self@.output.len(),
        ensures
            value == self@.output[index as int],
    {
        self.output[index]
    }

    /// The table that a header and records stand for, where their cells
    /// can be read and their rows are in order.
    pub fn from_csv(headers: Vec<String>, records: &Vec<Vec<String>>) -> (table: Result<
        Self,
        TableError,
    >)
        ensures
            match table {
                Ok(read) => read.wf() && Table::reading(texts(headers@), cells(records@)) == Ok::<
                    Table,
                    TableError,
                >(read@),
                Err(error) => Table::reading(texts(headers@), cells(records@)) == Err::<
                    Table,
                    TableError,
                >(error),
            },
    {
        match read_csv(headers, records) {
            Ok((variables, inputs, output)) => {
                let table = TruthTable { variables, inputs, output };
                proof {
                    crate::table_parser::lemma_reading_well_formed(
                        texts(headers@),
                        cells(records@),
                    );
                }
                Ok(table)
            },
            Err(error) => Err(error),
        }
    }

    /// The name of column `index`.
    pub fn get_header_at(&self, index: usize) -> (name: &String)
        requires
            index < self@.variables.len(),
        ensures
            name@ == self@.variables[index as int],
    {
        &self.variables[index]
    }
}

} // verus!
