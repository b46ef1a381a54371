//! The crate's error type, with the messages its variants render to.

use vstd::prelude::*;

verus! {

/// Errors the engine reports. Failures that originate in an outside library
/// carry that library's message as `detail`.
#[derive(Debug, Clone, PartialEq, Eq)]
pub enum KazeNhanhError {
    /// A Git operation failed after the repository was found.
    GitOperationError { path: String, detail: String },
    /// The repository path does not exist or is not a Git repository.
    RepositoryNotFound(String),
    /// The model or its assets could not be loaded.
    ModelLoadError { detail: String },
    /// Inference failed while generating a summary.
    ModelInferenceError { detail: String },
    /// The morphological dictionary or its settings could not be loaded.
    DictionaryLoadError { detail: String },
    /// Morphological analysis of the input failed.
    TokenizationError { detail: String },
    /// Markdown parsing or offset mapping failed.
    MarkdownParseError(String),
    /// A diff could not be interpreted.
    DiffParseError(String),
    /// The summarisation algorithms failed.
    SummarizeEngineError(String),
    /// User input failed validation.
    InvalidInput(String),
    /// An unexpected I/O error occurred.
    IoError { detail: String },
}

/// Mathematical model of an error: the variant and its text payloads.
pub enum ErrorView {
    GitOperationError { path: Seq<char>, detail: Seq<char> },
    RepositoryNotFound(Seq<char>),
    ModelLoadError { detail: Seq<char> },
    ModelInferenceError { detail: Seq<char> },
    DictionaryLoadError { detail: Seq<char> },
    TokenizationError { detail: Seq<char> },
    MarkdownParseError(Seq<char>),
    DiffParseError(Seq<char>),
    SummarizeEngineError(Seq<char>),
    InvalidInput(Seq<char>),
    IoError { detail: Seq<char> },
}

impl View for KazeNhanhError {
    type V = ErrorView;

    open spec fn view(&self) -> ErrorView {
        match self {
            KazeNhanhError::GitOperationError { path, detail } => ErrorView::GitOperationError { path: path@, detail: detail@ },
            KazeNhanhError::RepositoryNotFound(p) => ErrorView::RepositoryNotFound(p@),
            KazeNhanhError::ModelLoadError { detail } => ErrorView::ModelLoadError { detail: detail@ },
            KazeNhanhError::ModelInferenceError { detail } => ErrorView::ModelInferenceError { detail: detail@ },
            KazeNhanhError::DictionaryLoadError { detail } => ErrorView::DictionaryLoadError { detail: detail@ },
            KazeNhanhError::TokenizationError { detail } => ErrorView::TokenizationError { detail: detail@ },
            KazeNhanhError::MarkdownParseError(m) => ErrorView::MarkdownParseError(m@),
            KazeNhanhError::DiffParseError(m) => ErrorView::DiffParseError(m@),
            KazeNhanhError::SummarizeEngineError(m) => ErrorView::SummarizeEngineError(m@),
            KazeNhanhError::InvalidInput(m) => ErrorView::InvalidInput(m@),
            KazeNhanhError::IoError { detail } => ErrorView::IoError { detail: detail@ },
        }
    }
}

/// A result whose error is taken by its view.
pub open spec fn res_view<T>(r: Result<T, KazeNhanhError>) -> Result<T, ErrorView> {
    match r {
        Ok(v) => Ok(v),
        Err(e) => Err(e@),
    }
}

/// The text each error renders to.
pub open spec fn error_message(e: KazeNhanhError) -> Seq<char> {
    match e {
        KazeNhanhError::GitOperationError { path, .. } => "Gitリポジトリの操作に失敗しました (パス: "@ + path@ + ")"@,
        KazeNhanhError::RepositoryNotFound(p) => "リポジトリが見つかりません: "@ + p@,
        KazeNhanhError::ModelLoadError { .. } => "AIモデルのロードに失敗しました"@,
        KazeNhanhError::ModelInferenceError { .. } => "AIモデルでの推論（合成）中にエラーが発生しました"@,
        KazeNhanhError::DictionaryLoadError { .. } => "日本語辞書または設定ファイルのロードに失敗しました"@,
        KazeNhanhError::TokenizationError { .. } => "日本語の形態素解析に失敗しました"@,
        KazeNhanhError::MarkdownParseError(m) => "Markdownの解析または行番号のマッピングに失敗しました: "@ + m@,
        KazeNhanhError::DiffParseError(m) => "Git差分(diff)の解析に失敗しました: "@ + m@,
        KazeNhanhError::SummarizeEngineError(m) => "要約エンジンでエラーが発生しました: "@ + m@,
        KazeNhanhError::InvalidInput(m) => "無効な入力が指定されました: "@ + m@,
        KazeNhanhError::IoError { .. } => "予期せぬI/Oエラーが発生しました"@,
    }
}

impl KazeNhanhError {
    /// Renders the error as user-facing text.
    pub fn to_string(&self) -> (s: String)
        ensures
            s@ == error_message(*self),
    {
        match self {
            KazeNhanhError::GitOperationError { path, .. } => {
                let mut s = String::from_str("Gitリポジトリの操作に失敗しました (パス: ");
                s.append(path.as_str());
                s.append(")");
                s
            },
            KazeNhanhError::RepositoryNotFound(p) => String::from_str("リポジトリが見つかりません: ").concat(p.as_str()),
            KazeNhanhError::ModelLoadError { .. } => String::from_str("AIモデルのロードに失敗しました"),
            KazeNhanhError::ModelInferenceError { .. } => String::from_str("AIモデルでの推論（合成）中にエラーが発生しました"),
            KazeNhanhError::DictionaryLoadError { .. } => String::from_str("日本語辞書または設定ファイルのロードに失敗しました"),
            KazeNhanhError::TokenizationError { .. } => String::from_str("日本語の形態素解析に失敗しました"),
            KazeNhanhError::MarkdownParseError(m) => String::from_str("Markdownの解析または行番号のマッピングに失敗しました: ").concat(m.as_str()),
            KazeNhanhError::DiffParseError(m) => String::from_str("Git差分(diff)の解析に失敗しました: ").concat(m.as_str()),
            KazeNhanhError::SummarizeEngineError(m) => String::from_str("要約エンジンでエラーが発生しました: ").concat(m.as_str()),
            KazeNhanhError::InvalidInput(m) => String::from_str("無効な入力が指定されました: ").concat(m.as_str()),
            KazeNhanhError::IoError { .. } => String::from_str("予期せぬI/Oエラーが発生しました"),
        }
    }
}

} // verus!
