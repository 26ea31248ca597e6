//! The state of a viewing session: the text that is open, the window of
//! records on show, and what the user is to be told.

use vstd::prelude::*;
use crate::error::ViewerError;
use crate::lines::{count_data_rows, data_row_count, line_count};
use crate::paging::{Pager, PageSignal};
use crate::reader::{
    data_rows, get_headers_from_file, get_records_from_pos, header_of, is_delimiter, window_of,
};
use crate::csv_io::csv_rows;
use crate::record::{rows_of, Record};

verus! {

/// The character that separates the fields of a row.
#[derive(Clone, Copy, Debug, PartialEq, Eq, Structural)]
pub enum Delimiter {
    Comma,
    Tab,
    Semicolon,
    /// No choice was made: fields are split at commas.
    Auto,
}

impl Delimiter {
    /// The character that `self` stands for.
    pub open spec fn character(self) -> char {
        match self {
            Delimiter::Comma => ',',
            Delimiter::Tab => '\t',
            Delimiter::Semicolon => ';',
            Delimiter::Auto => ',',
        }
    }

    /// Returns the character that `self` stands for.
    pub fn to_char(&self) -> (c: char)
        ensures
            c == self.character(),
            is_delimiter(c),
    {
        match self {
            Delimiter::Comma => ',',
            Delimiter::Tab => '\t',
            Delimiter::Semicolon => ';',
            Delimiter::Auto => ',',
        }
    }
}

/// What is known of the file that is open.
#[derive(Clone, Copy, Debug, PartialEq, Eq, Structural)]
pub struct FileInfo {
    pub delimiter: Delimiter,
    /// The number of data rows, the header line not counted.
    pub total_rows: usize,
    pub has_headers: bool,
}

impl Default for FileInfo {
    fn default() -> (info: FileInfo)
        ensures
            info == (FileInfo { delimiter: Delimiter::Comma, total_rows: 0, has_headers: true }),
    {
        FileInfo { delimiter: Delimiter::Comma, total_rows: 0, has_headers: true }
    }
}

/// The part of the application that is on show.
#[derive(Clone, Copy, Debug, PartialEq, Eq, Structural)]
pub enum AppState {
    MainMenu,
    Viewer,
    Finder,
    Sorter,
}

/// What a dialog box tells the user.
#[derive(Clone, Copy, Debug, PartialEq, Eq, Structural)]
pub enum DialogMessage {
    NoMessage,
    NextPage,
    PreviousPage,
    StartOfFile,
    EndOfFile,
    ExportedFile,
}

impl DialogMessage {
    /// The words of the message.
    pub open spec fn words(self) -> Seq<char> {
        match self {
            DialogMessage::NoMessage => "Error: No Dialog Message"@,
            DialogMessage::NextPage => "Already on Last Page"@,
            DialogMessage::PreviousPage => "Already on First Page"@,
            DialogMessage::StartOfFile => "Already at Start of File"@,
            DialogMessage::EndOfFile => "Already at End of File"@,
            DialogMessage::ExportedFile => "Sorted File Exported Successfully"@,
        }
    }

    /// Returns the words of the message.
    pub fn text(&self) -> (text: &'static str)
        ensures
            text@ == self.words(),
    {
        match self {
            DialogMessage::NoMessage => "Error: No Dialog Message",
            DialogMessage::NextPage => "Already on Last Page",
            DialogMessage::PreviousPage => "Already on First Page",
            DialogMessage::StartOfFile => "Already at Start of File",
            DialogMessage::EndOfFile => "Already at End of File",
            DialogMessage::ExportedFile => "Sorted File Exported Successfully",
        }
    }
}

/// The settings of a session and what it is waiting for.
#[derive(Clone, Copy, Debug, PartialEq, Eq, Structural)]
pub struct AppSettings {
    pub has_file: bool,
    /// The number of rows that a window holds.
    pub num_rows_to_display: usize,
    /// The data row at which the window starts.
    pub current_pos: usize,
    pub quit_confirmation: bool,
    pub allowed_to_quit: bool,
    pub dialog_open: bool,
    pub dialog_msg: DialogMessage,
    pub index_selected_header: usize,
}

impl AppSettings {
    /// The settings that a session starts with.
    pub open spec fn initial() -> AppSettings {
        AppSettings {
            has_file: false,
            num_rows_to_display: 100,
            current_pos: 0,
            quit_confirmation: false,
            allowed_to_quit: false,
            dialog_open: false,
            dialog_msg: DialogMessage::NoMessage,
            index_selected_header: 0,
        }
    }

    /// The settings with a dialog open on `message`.
    pub open spec fn telling(self, message: DialogMessage) -> AppSettings {
        AppSettings { dialog_open: true, dialog_msg: message, ..self }
    }

    /// The settings with the window at `position`.
    pub open spec fn at(self, position: usize) -> AppSettings {
        AppSettings { current_pos: position, ..self }
    }
}

impl Default for AppSettings {
    fn default() -> (settings: AppSettings)
        ensures
            settings == AppSettings::initial(),
    {
        AppSettings {
            has_file: false,
            num_rows_to_display: 100,
            current_pos: 0,
            quit_confirmation: false,
            allowed_to_quit: false,
            dialog_open: false,
            dialog_msg: DialogMessage::NoMessage,
            index_selected_header: 0,
        }
    }
}

/// A viewing session. `file_path` names the file that is open, `data` is its
/// text, `headers` its first row and `records` the window of data rows on
/// show.
pub struct Viewer {
    pub app_state: AppState,
    pub file_info: FileInfo,
    pub headers: Record,
    pub records: Vec<Record>,
    pub file_path: Option<String>,
    pub data: Vec<u8>,
    pub settings: AppSettings,
}

impl Viewer {
    /// Where the window stands in the file.
    pub open spec fn pager(self) -> Pager {
        Pager {
            current_position: self.settings.current_pos,
            window_size: self.settings.num_rows_to_display,
            total_rows: self.file_info.total_rows,
        }
    }

    /// What reading the window at `position` gives.
    pub open spec fn window_at(self, position: usize) -> Result<Seq<Seq<Seq<char>>>, ViewerError> {
        window_of(
            data_rows(self.data@, self.file_info.has_headers, self.file_info.delimiter.character()),
            position as nat,
            self.settings.num_rows_to_display as nat,
        )
    }

    /// Whether the records on show are the window at the current position.
    pub open spec fn shows_window(self) -> bool {
        self.window_at(self.settings.current_pos) == Ok::<Seq<Seq<Seq<char>>>, ViewerError>(
            rows_of(self.records@),
        )
    }

    /// Whether `self` and `other` have the same file open, whatever they show
    /// of it.
    pub open spec fn same_file(self, other: Viewer) -> bool {
        &&& self.app_state == other.app_state
        &&& self.file_info == other.file_info
        &&& self.headers == other.headers
        &&& self.file_path == other.file_path
        &&& self.data == other.data
    }

    /// Whether no file is open and every setting is as at the start.
    pub open spec fn is_closed(self) -> bool {
        &&& self.app_state == AppState::MainMenu
        &&& self.file_info == (FileInfo {
            delimiter: Delimiter::Comma,
            total_rows: 0,
            has_headers: true,
        })
        &&& self.headers@.len() == 0
        &&& self.records@.len() == 0
        &&& self.file_path is None
        &&& self.data@.len() == 0
        &&& self.settings == AppSettings::initial()
    }

    /// A session with no file open.
    pub fn new() -> (viewer: Viewer)
        ensures
            viewer.is_closed(),
    {
        Viewer {
            app_state: AppState::MainMenu,
            file_info: FileInfo::default(),
            headers: Record::new(),
            records: Vec::new(),
            file_path: None,
            data: Vec::new(),
            settings: AppSettings::default(),
        }
    }

    /// Returns where the window stands in the file.
    pub fn current_pager(&self) -> (pager: Pager)
        ensures
            pager == self.pager(),
    {
        Pager {
            current_position: self.settings.current_pos,
            window_size: self.settings.num_rows_to_display,
            total_rows: self.file_info.total_rows,
        }
    }

    /// Reads the window at `position` and, if that succeeds, shows it and
    /// moves the position there. A failed read changes nothing.
    fn show_page_at(&mut self, position: usize) -> (shown: Result<(), ViewerError>)
        ensures
            match old(self).window_at(position) {
                Ok(rows) => {
                    &&& shown is Ok
                    &&& final(self).same_file(*old(self))
                    &&& final(self).settings == old(self).settings.at(position)
                    &&& rows_of(final(self).records@) == rows
                    &&& final(self).shows_window()
                },
                Err(e) => shown == Err::<(), ViewerError>(e) && *final(self) == *old(self),
            },
    {
        let delimiter = self.file_info.delimiter.to_char();
        match get_records_from_pos(
            self.data.as_slice(),
            position,
            self.settings.num_rows_to_display,
            self.file_info.has_headers,
            delimiter,
        ) {
            Ok(records) => {
                self.records = records;
                self.settings.current_pos = position;
                Ok(())
            },
            Err(e) => Err(e),
        }
    }

    /// Opens a dialog on `message`.
    fn tell(&mut self, message: DialogMessage)
        ensures
            final(self).same_file(*old(self)),
            final(self).records == old(self).records,
            final(self).settings == old(self).settings.telling(message),
    {
        self.settings.dialog_msg = message;
        self.settings.dialog_open = true;
    }

    /// Opens the file at `file_path`, whose text is `data`, with the delimiter,
    /// header flag and window size that are set: counts its data rows, takes
    /// its first row as headers and shows the window at its first data row.
    /// Where the headers or the window cannot be read, the error is returned
    /// and nothing changes.
    pub fn open_file(&mut self, file_path: String, data: Vec<u8>) -> (opened: Result<
        (),
        ViewerError,
    >)
        ensures
            match header_of(csv_rows(data@, old(self).file_info.delimiter.character() as u8)) {
                Err(e) => opened == Err::<(), ViewerError>(e) && *final(self) == *old(self),
                Ok(headers) => match window_of(
                    data_rows(
                        data@,
                        old(self).file_info.has_headers,
                        old(self).file_info.delimiter.character(),
                    ),
                    0,
                    old(self).settings.num_rows_to_display as nat,
                ) {
                    Err(e) => opened == Err::<(), ViewerError>(e) && *final(self) == *old(self),
                    Ok(rows) => {
                        &&& opened is Ok
                        &&& final(self).app_state == AppState::Viewer
                        &&& final(self).file_path == Some(file_path)
                        &&& final(self).data == data
                        &&& final(self).headers@ == headers
                        &&& rows_of(final(self).records@) == rows
                        &&& final(self).file_info == (FileInfo {
                            total_rows: data_row_count(
                                line_count(data@),
                                old(self).file_info.has_headers,
                            ) as usize,
                            ..old(self).file_info
                        })
                        &&& final(self).settings == (AppSettings {
                            has_file: true,
                            current_pos: 0,
                            ..old(self).settings
                        })
                        &&& final(self).shows_window()
                    },
                },
            },
            old(self).pager().in_range() || opened is Ok ==> final(self).pager().in_range(),
    {
        let delimiter = self.file_info.delimiter.to_char();
        let total_rows = count_data_rows(data.as_slice(), self.file_info.has_headers);
        let headers = match get_headers_from_file(data.as_slice(), delimiter) {
            Ok(headers) => headers,
            Err(e) => {
                return Err(e);
            },
        };
        let records = match get_records_from_pos(
            data.as_slice(),
            0,
            self.settings.num_rows_to_display,
            self.file_info.has_headers,
            delimiter,
        ) {
            Ok(records) => records,
            Err(e) => {
                return Err(e);
            },
        };
        self.file_path = Some(file_path);
        self.data = data;
        self.file_info.total_rows = total_rows;
        self.headers = headers;
        self.records = records;
        self.settings.current_pos = 0;
        self.settings.has_file = true;
        self.app_state = AppState::Viewer;
        Ok(())
    }

    /// Closes the file and goes back to the main menu with every setting as
    /// at the start.
    pub fn close_file(&mut self)
        ensures
            final(self).is_closed(),
    {
        self.headers = Record::new();
        self.records = Vec::new();
        self.file_path = None;
        self.data = Vec::new();
        self.file_info = FileInfo::default();
        self.settings = AppSettings::default();
        self.app_state = AppState::MainMenu;
    }

    /// Shows the next page if a full page follows the window, and tells the
    /// user that this is the last page otherwise.
    pub fn show_next_page(&mut self) -> (signal: Result<PageSignal, ViewerError>)
        ensures
            !old(self).pager().can_go_next() ==> {
                &&& signal == Ok::<PageSignal, ViewerError>(PageSignal::AtEndOfFile)
                &&& final(self).same_file(*old(self))
                &&& final(self).records == old(self).records
                &&& final(self).settings == old(self).settings.telling(DialogMessage::NextPage)
            },
            old(self).pager().can_go_next() ==> match old(self).window_at(
                old(self).pager().after_next().current_position,
            ) {
                Ok(rows) => {
                    &&& signal == Ok::<PageSignal, ViewerError>(PageSignal::Moved)
                    &&& final(self).same_file(*old(self))
                    &&& final(self).settings == old(self).settings.at(
                        old(self).pager().after_next().current_position,
                    )
                    &&& rows_of(final(self).records@) == rows
                    &&& final(self).shows_window()
                },
                Err(e) => signal == Err::<PageSignal, ViewerError>(e) && *final(self) == *old(
                    self,
                ),
            },
            old(self).pager().in_range() ==> final(self).pager().in_range(),
    {
        let mut pager = self.current_pager();
        match pager.next_page() {
            PageSignal::Moved => match self.show_page_at(pager.current_position) {
                Ok(()) => Ok(PageSignal::Moved),
                Err(e) => Err(e),
            },
            _ => {
                self.tell(DialogMessage::NextPage);
                Ok(PageSignal::AtEndOfFile)
            },
        }
    }

    /// Shows the page before the window: one window back, or the first page
    /// where less than a window lies before the position.
    pub fn show_prev_page(&mut self) -> (signal: Result<PageSignal, ViewerError>)
        ensures
            match old(self).window_at(old(self).pager().after_previous().current_position) {
                Ok(rows) => {
                    &&& signal == Ok::<PageSignal, ViewerError>(PageSignal::Moved)
                    &&& final(self).same_file(*old(self))
                    &&& final(self).settings == old(self).settings.at(
                        old(self).pager().after_previous().current_position,
                    )
                    &&& rows_of(final(self).records@) == rows
                    &&& final(self).shows_window()
                },
                Err(e) => signal == Err::<PageSignal, ViewerError>(e) && *final(self) == *old(
                    self,
                ),
            },
            old(self).pager().in_range() ==> final(self).pager().in_range(),
    {
        let mut pager = self.current_pager();
        let signal = pager.previous_page();
        match self.show_page_at(pager.current_position) {
            Ok(()) => Ok(signal),
            Err(e) => Err(e),
        }
    }

    /// Shows the first page, and tells the user where the window already is
    /// at the start of the file.
    pub fn show_first_page(&mut self) -> (signal: Result<PageSignal, ViewerError>)
        ensures
            old(self).settings.current_pos == 0 ==> {
                &&& signal == Ok::<PageSignal, ViewerError>(PageSignal::AtStartOfFile)
                &&& final(self).same_file(*old(self))
                &&& final(self).records == old(self).records
                &&& final(self).settings == old(self).settings.telling(DialogMessage::StartOfFile)
            },
            old(self).settings.current_pos != 0 ==> match old(self).window_at(0) {
                Ok(rows) => {
                    &&& signal == Ok::<PageSignal, ViewerError>(PageSignal::Moved)
                    &&& final(self).same_file(*old(self))
                    &&& final(self).settings == old(self).settings.at(0)
                    &&& rows_of(final(self).records@) == rows
                    &&& final(self).shows_window()
                },
                Err(e) => signal == Err::<PageSignal, ViewerError>(e) && *final(self) == *old(
                    self,
                ),
            },
            old(self).pager().in_range() ==> final(self).pager().in_range(),
    {
        let mut pager = self.current_pager();
        match pager.first_page() {
            PageSignal::Moved => match self.show_page_at(pager.current_position) {
                Ok(()) => Ok(PageSignal::Moved),
                Err(e) => Err(e),
            },
            _ => {
                self.tell(DialogMessage::StartOfFile);
                Ok(PageSignal::AtStartOfFile)
            },
        }
    }

    /// Shows the last page with the number of rows that a window holds, and
    /// tells the user where the file has no more rows than one window.
    pub fn show_last_page(&mut self) -> (signal: Result<PageSignal, ViewerError>)
        ensures
            !old(self).pager().can_go_last() ==> {
                &&& signal == Ok::<PageSignal, ViewerError>(PageSignal::TooShortForPaging)
                &&& final(self).same_file(*old(self))
                &&& final(self).records == old(self).records
                &&& final(self).settings == old(self).settings.telling(DialogMessage::EndOfFile)
            },
            old(self).pager().can_go_last() ==> match old(self).window_at(
                old(self).pager().after_last().current_position,
            ) {
                Ok(rows) => {
                    &&& signal == Ok::<PageSignal, ViewerError>(PageSignal::Moved)
                    &&& final(self).same_file(*old(self))
                    &&& final(self).settings == old(self).settings.at(
                        old(self).pager().after_last().current_position,
                    )
                    &&& rows_of(final(self).records@) == rows
                    &&& final(self).shows_window()
                },
                Err(e) => signal == Err::<PageSignal, ViewerError>(e) && *final(self) == *old(
                    self,
                ),
            },
            old(self).pager().in_range() ==> final(self).pager().in_range(),
    {
        let mut pager = self.current_pager();
        match pager.last_page() {
            PageSignal::Moved => match self.show_page_at(pager.current_position) {
                Ok(()) => Ok(PageSignal::Moved),
                Err(e) => Err(e),
            },
            _ => {
                self.tell(DialogMessage::EndOfFile);
                Ok(PageSignal::TooShortForPaging)
            },
        }
    }

    /// Takes `sorted`, the text that a sort put out to the file at
    /// `output_path`, as the file that is open: a comma-separated text with a
    /// header line, shown from its first data row, and tells the user that the
    /// sorted file was exported. Where the first window cannot be read, the
    /// error is returned and nothing changes.
    pub fn finish_sort(&mut self, output_path: String, sorted: Vec<u8>) -> (shown: Result<
        (),
        ViewerError,
    >)
        ensures
            match window_of(
                data_rows(sorted@, true, ','),
                0,
                old(self).settings.num_rows_to_display as nat,
            ) {
                Err(e) => shown == Err::<(), ViewerError>(e) && *final(self) == *old(self),
                Ok(rows) => {
                    &&& shown is Ok
                    &&& final(self).app_state == old(self).app_state
                    &&& final(self).headers == old(self).headers
                    &&& final(self).file_path == Some(output_path)
                    &&& final(self).data == sorted
                    &&& rows_of(final(self).records@) == rows
                    &&& final(self).file_info == (FileInfo {
                        delimiter: Delimiter::Comma,
                        total_rows: data_row_count(line_count(sorted@), true) as usize,
                        has_headers: true,
                    })
                    &&& final(self).settings == old(self).settings.at(0).telling(
                        DialogMessage::ExportedFile,
                    )
                    &&& final(self).shows_window()
                },
            },
            old(self).pager().in_range() || shown is Ok ==> final(self).pager().in_range(),
    {
        let total_rows = count_data_rows(sorted.as_slice(), true);
        let records = match get_records_from_pos(
            sorted.as_slice(),
            0,
            self.settings.num_rows_to_display,
            true,
            ',',
        ) {
            Ok(records) => records,
            Err(e) => {
                return Err(e);
            },
        };
        self.file_path = Some(output_path);
        self.data = sorted;
        self.file_info = FileInfo { delimiter: Delimiter::Comma, total_rows, has_headers: true };
        self.records = records;
        self.settings.current_pos = 0;
        self.tell(DialogMessage::ExportedFile);
        Ok(())
    }

    /// Returns the header by which the file is to be sorted, or `OutOfRange`
    /// where the index that was chosen is no index of the headers.
    pub fn selected_header(&self) -> (header: Result<&String, ViewerError>)
        ensures
            self.settings.index_selected_header < self.headers@.len() ==> header is Ok
                && header.unwrap()@ == self.headers@[self.settings.index_selected_header as int],
            self.settings.index_selected_header >= self.headers@.len() ==> header == Err::<
                &String,
                ViewerError,
            >(ViewerError::OutOfRange),
    {
        self.headers.get(self.settings.index_selected_header)
    }

    /// Closes the dialog box.
    pub fn confirm_dialog(&mut self)
        ensures
            final(self).same_file(*old(self)),
            final(self).records == old(self).records,
            final(self).settings == (AppSettings {
                dialog_open: false,
                dialog_msg: DialogMessage::NoMessage,
                ..old(self).settings
            }),
    {
        self.settings.dialog_msg = DialogMessage::NoMessage;
        self.settings.dialog_open = false;
    }

    /// Takes note that the user wants to close the application, so that they
    /// are asked to confirm, and tells whether closing is allowed already.
    pub fn on_close_event(&mut self) -> (allowed: bool)
        ensures
            allowed == old(self).settings.allowed_to_quit,
            final(self).same_file(*old(self)),
            final(self).records == old(self).records,
            final(self).settings == (AppSettings { quit_confirmation: true, ..old(self).settings }),
    {
        self.settings.quit_confirmation = true;
        self.settings.allowed_to_quit
    }

    /// Takes the user's answer to the question whether to quit: `true` allows
    /// the application to close, `false` takes the question away.
    pub fn answer_quit(&mut self, quit: bool)
        ensures
            final(self).same_file(*old(self)),
            final(self).records == old(self).records,
            quit ==> final(self).settings == (AppSettings {
                allowed_to_quit: true,
                ..old(self).settings
            }),
            !quit ==> final(self).settings == (AppSettings {
                quit_confirmation: false,
                ..old(self).settings
            }),
    {
        if quit {
            self.settings.allowed_to_quit = true;
        } else {
            self.settings.quit_confirmation = false;
        }
    }
}

impl Default for Viewer {
    fn default() -> (viewer: Viewer)
        ensures
            viewer.is_closed(),
    {
        Viewer::new()
    }
}

} // verus!
