//! Error types of the GPU back end and the mapping from the status codes of
//! the CUDA wrapper library to them.

use vstd::prelude::*;

verus! {

/// Errors of GPU propagation.
#[derive(Debug)]
pub enum CudaError {
    /// No GPU or no CUDA toolkit.
    NotAvailable,
    /// CUDA runtime error (with a description).
    Runtime(String),
    /// Device memory allocation failed.
    MemoryAllocation(String),
    /// Kernel launch failed.
    KernelLaunch(String),
    /// Memory copy failed.
    MemoryCopy(String),
    /// PTX compilation failed.
    PtxCompilation(String),
    /// Kernels are not loaded.
    KernelsNotLoaded(String),
}

/// Status codes of the CUDA wrapper library.
#[derive(Debug, Copy, Clone, PartialEq, Eq, Structural)]
pub enum CudaWrapperError {
    Success,
    InitFailed,
    DeviceNotFound,
    MemoryAllocation,
    MemoryCopy,
    ModuleLoad,
    FunctionNotFound,
    KernelLaunch,
    StreamSync,
    Unknown,
}

impl CudaWrapperError {
    /// The numeric code of a status, as the C library returns it.
    pub open spec fn code_spec(self) -> i32 {
        match self {
            CudaWrapperError::Success => 0,
            CudaWrapperError::InitFailed => 1,
            CudaWrapperError::DeviceNotFound => 2,
            CudaWrapperError::MemoryAllocation => 3,
            CudaWrapperError::MemoryCopy => 4,
            CudaWrapperError::ModuleLoad => 5,
            CudaWrapperError::FunctionNotFound => 6,
            CudaWrapperError::KernelLaunch => 7,
            CudaWrapperError::StreamSync => 8,
            CudaWrapperError::Unknown => 99,
        }
    }

    /// The numeric code of this status.
    pub fn code(&self) -> (r: i32)
        ensures
            r == self.code_spec(),
    {
        match self {
            CudaWrapperError::Success => 0,
            CudaWrapperError::InitFailed => 1,
            CudaWrapperError::DeviceNotFound => 2,
            CudaWrapperError::MemoryAllocation => 3,
            CudaWrapperError::MemoryCopy => 4,
            CudaWrapperError::ModuleLoad => 5,
            CudaWrapperError::FunctionNotFound => 6,
            CudaWrapperError::KernelLaunch => 7,
            CudaWrapperError::StreamSync => 8,
            CudaWrapperError::Unknown => 99,
        }
    }

    /// The status with a numeric code, if the code is one of the library's.
    pub fn from_code(code: i32) -> (r: Option<CudaWrapperError>)
        ensures
            r matches Some(s) ==> s.code_spec() == code,
            r is None ==> forall|s: CudaWrapperError| s.code_spec() != code,
    {
        match code {
            0 => Some(CudaWrapperError::Success),
            1 => Some(CudaWrapperError::InitFailed),
            2 => Some(CudaWrapperError::DeviceNotFound),
            3 => Some(CudaWrapperError::MemoryAllocation),
            4 => Some(CudaWrapperError::MemoryCopy),
            5 => Some(CudaWrapperError::ModuleLoad),
            6 => Some(CudaWrapperError::FunctionNotFound),
            7 => Some(CudaWrapperError::KernelLaunch),
            8 => Some(CudaWrapperError::StreamSync),
            99 => Some(CudaWrapperError::Unknown),
            _ => None,
        }
    }
}

impl CudaError {
    /// The error a failed wrapper call maps to: a missing device is
    /// `NotAvailable`, allocation, copy, module, function and launch failures
    /// map to their kinds, and initialization, stream synchronization and
    /// unknown failures are runtime errors.
    pub fn from_wrapper_error(err: CudaWrapperError) -> (r: CudaError)
        requires
            err != CudaWrapperError::Success,
        ensures
            err == CudaWrapperError::DeviceNotFound <==> r is NotAvailable,
            err == CudaWrapperError::MemoryAllocation <==> r is MemoryAllocation,
            err == CudaWrapperError::MemoryCopy <==> r is MemoryCopy,
            err == CudaWrapperError::ModuleLoad <==> r is PtxCompilation,
            err == CudaWrapperError::FunctionNotFound <==> r is KernelsNotLoaded,
            err == CudaWrapperError::KernelLaunch <==> r is KernelLaunch,
            (err == CudaWrapperError::InitFailed || err == CudaWrapperError::StreamSync || err
                == CudaWrapperError::Unknown) <==> r is Runtime,
    {
        match err {
            CudaWrapperError::Success => CudaError::Runtime("Unknown CUDA error".to_string()),
            CudaWrapperError::InitFailed => CudaError::Runtime("Failed to initialize CUDA".to_string()),
            CudaWrapperError::DeviceNotFound => CudaError::NotAvailable,
            CudaWrapperError::MemoryAllocation => CudaError::MemoryAllocation(
                "Device memory allocation failed".to_string(),
            ),
            CudaWrapperError::MemoryCopy => CudaError::MemoryCopy("Memory copy failed".to_string()),
            CudaWrapperError::ModuleLoad => CudaError::PtxCompilation(
                "Failed to load PTX module".to_string(),
            ),
            CudaWrapperError::FunctionNotFound => CudaError::KernelsNotLoaded(
                "Function not found in module".to_string(),
            ),
            CudaWrapperError::KernelLaunch => CudaError::KernelLaunch("Kernel launch failed".to_string()),
            CudaWrapperError::StreamSync => CudaError::Runtime(
                "Stream synchronization failed".to_string(),
            ),
            CudaWrapperError::Unknown => CudaError::Runtime("Unknown CUDA error".to_string()),
        }
    }

    /// The message this error displays as.
    pub fn to_message(&self) -> (r: String)
        ensures
            r@ == self.message(),
    {
        match self {
            CudaError::NotAvailable => "CUDA not available (no GPU or CUDA toolkit not found)".to_string(),
            CudaError::Runtime(s) => {
                let mut m = "CUDA runtime error: ".to_string();
                m.append(s.as_str());
                m
            },
            CudaError::MemoryAllocation(s) => {
                let mut m = "Memory allocation failed: ".to_string();
                m.append(s.as_str());
                m
            },
            CudaError::KernelLaunch(s) => {
                let mut m = "Kernel launch failed: ".to_string();
                m.append(s.as_str());
                m
            },
            CudaError::MemoryCopy(s) => {
                let mut m = "Memory copy failed: ".to_string();
                m.append(s.as_str());
                m
            },
            CudaError::PtxCompilation(s) => {
                let mut m = "PTX compilation failed: ".to_string();
                m.append(s.as_str());
                m
            },
            CudaError::KernelsNotLoaded(s) => {
                let mut m = "Kernels not loaded: ".to_string();
                m.append(s.as_str());
                m
            },
        }
    }

    /// The text of the message.
    pub open spec fn message(self) -> Seq<char> {
        match self {
            CudaError::NotAvailable => "CUDA not available (no GPU or CUDA toolkit not found)"@,
            CudaError::Runtime(s) => "CUDA runtime error: "@ + s@,
            CudaError::MemoryAllocation(s) => "Memory allocation failed: "@ + s@,
            CudaError::KernelLaunch(s) => "Kernel launch failed: "@ + s@,
            CudaError::MemoryCopy(s) => "Memory copy failed: "@ + s@,
            CudaError::PtxCompilation(s) => "PTX compilation failed: "@ + s@,
            CudaError::KernelsNotLoaded(s) => "Kernels not loaded: "@ + s@,
        }
    }
}

} // verus!
