//! A file held in memory: a name, its bytes, and whether it is open. It can
//! be read only while it is open.

use vstd::prelude::*;

verus! {

/// Something whose bytes can be read into a buffer.
pub trait Read {
    /// Appends what there is to read to `save_to` and returns how many bytes
    /// that were, or says why nothing could be read.
    fn read(&self, save_to: &mut Vec<u8>) -> Result<usize, String>;
}

/// Whether a file is open.
#[derive(Debug, PartialEq, Eq, Structural)]
pub enum FileState {
    Open,
    Closed,
}

/// A file in memory.
#[derive(Debug)]
pub struct File {
    pub name: String,
    pub data: Vec<u8>,
    pub state: FileState,
}

/// The text that stands for a state.
pub open spec fn state_text(state: FileState) -> Seq<char> {
    match state {
        FileState::Open => "Open"@,
        FileState::Closed => "Closed"@,
    }
}

/// The text that stands for a file of the given name in the given state:
/// the name, and behind it the state in round brackets, all in angle
/// brackets.
pub open spec fn file_text(name: Seq<char>, state: FileState) -> Seq<char> {
    "<"@ + name + " ("@ + state_text(state) + ")>"@
}

/// What a closed file answers to a read.
pub open spec fn must_be_open() -> Seq<char> {
    "File must be open for reading"@
}

impl FileState {
    /// The state as text: `Open` or `Closed`.
    pub fn describe(&self) -> (text: String)
        ensures
            text@ == state_text(*self),
    {
        match self {
            FileState::Open => String::from_str("Open"),
            FileState::Closed => String::from_str("Closed"),
        }
    }
}

impl Read for File {
    /// Appends the bytes of the file to `save_to` and returns their number.
    /// A file that is not open is not read: `save_to` stays as it is.
    fn read(&self, save_to: &mut Vec<u8>) -> (result: Result<usize, String>)
        ensures
            match result {
                Ok(read_length) => {
                    &&& self.state == FileState::Open
                    &&& read_length == self.data@.len()
                    &&& final(save_to)@ == old(save_to)@ + self.data@
                },
                Err(message) => {
                    &&& self.state != FileState::Open
                    &&& message@ == must_be_open()
                    &&& final(save_to)@ == old(save_to)@
                },
            },
    {
        if self.state != FileState::Open {
            return Err(String::from_str("File must be open for reading"));
        }
        let read_length = self.data.len();
        save_to.extend_from_slice(self.data.as_slice());
        assert(save_to@ =~= old(save_to)@ + self.data@);
        Ok(read_length)
    }
}

impl File {
    /// A closed file of the given name, without any bytes.
    pub fn new(name: &str) -> (file: File)
        ensures
            file.name@ == name@,
            file.data@ == Seq::<u8>::empty(),
            file.state == FileState::Closed,
    {
        File { name: String::from_str(name), data: Vec::new(), state: FileState::Closed }
    }

    /// The file as text, such as `<notes.txt (Closed)>`.
    pub fn describe(&self) -> (text: String)
        ensures
            text@ == file_text(self.name@, self.state),
    {
        let mut text = String::from_str("<");
        text.append(self.name.as_str());
        text.append(" (");
        text.append(self.state.describe().as_str());
        text.append(")>");
        text
    }
}

/// Opens `file`. Its name and its bytes stay as they are.
pub fn open(mut file: File) -> (result: Result<File, String>)
    ensures
        result == Ok::<File, String>(
            File { name: file.name, data: file.data, state: FileState::Open },
        ),
{
    file.state = FileState::Open;
    Ok(file)
}

/// Closes `file`. Its name and its bytes stay as they are.
pub fn close(mut file: File) -> (result: Result<File, String>)
    ensures
        result == Ok::<File, String>(
            File { name: file.name, data: file.data, state: FileState::Closed },
        ),
{
    file.state = FileState::Closed;
    Ok(file)
}

} // verus!
