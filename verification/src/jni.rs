//! Text that goes with the Android bindings.
use vstd::prelude::*;

verus! {

/// The Kotlin interface that goes with the JNI bindings.
pub const KOTLIN_INTERFACE: &'static str = r#"
    package com.example.app
    
    /**
     * A record in the log buffer
     */
    data class LogRecord(
        val data: ByteArray,
        val crc32: Long,
        val tag: Int,
        val timestampUs: Long
    ) {
        override fun equals(other: Any?): Boolean {
            if (this === other) return true
            if (javaClass != other?.javaClass) return false
    
            other as LogRecord
    
            if (!data.contentEquals(other.data)) return false
            if (crc32 != other.crc32) return false
            if (tag != other.tag) return false
            if (timestampUs != other.timestampUs) return false
    
            return true
        }
    
        override fun hashCode(): Int {
            var result = data.contentHashCode()
            result = 31 * result + crc32.hashCode()
            result = 31 * result + tag
            result = 31 * result + timestampUs.hashCode()
            return result
        }
    }
    
    /**
     * Interface to the Sherlog native library
     */
    object Sherlog {
        init {
            System.loadLibrary("sherlog_ring_buffer")
        }
    
        /**
         * Initialize the logging system
         * 
         * @param diskPath Path to store the persistent log file
         * @param volatileBufferSize Size of the in-memory buffer in bytes
         * @param persistentBufferSize Size of the persistent buffer in bytes
         * @param flushIntervalMs How often to flush from memory to disk (milliseconds)
         * @param highWatermarkPercent Buffer usage percentage to trigger immediate flush
         * @return true if initialization was successful
         */
        external fun initialize(
            diskPath: String,
            volatileBufferSize: Int,
            persistentBufferSize: Int,
            flushIntervalMs: Int,
            highWatermarkPercent: Float
        ): Boolean
    
        /**
         * Shutdown the logging system
         */
        external fun shutdown()
    
        /**
         * Write data to the log
         * 
         * @param data The bytes to write
         * @param tag A tag value for filtering/identifying log records
         * @return true if the write was successful
         */
        external fun write(data: ByteArray, tag: Int): Boolean
    
        /**
         * Create a cursor for reading from the persistent buffer
         * 
         * @return A pointer to the cursor (handle)
         */
        external fun createCursor(): Long
    
        /**
         * Read a batch of records from the cursor
         * 
         * @param cursorPtr Pointer to the cursor
         * @param maxCount Maximum number of records to read
         * @return Array of LogRecord objects, or null if an error occurred
         */
        external fun readBatch(cursorPtr: Long, maxCount: Int): Array<LogRecord>?
    
        /**
         * Close and free the cursor
         * 
         * @param cursorPtr Pointer to the cursor
         */
        external fun closeCursor(cursorPtr: Long)
        
        /**
         * Helper method to use the cursor with Kotlin's 'use' pattern
         */
        inline fun <T> withCursor(block: (Long) -> T): T {
            val cursor = createCursor()
            try {
                return block(cursor)
            } finally {
                closeCursor(cursor)
            }
        }
        
        /**
         * Example of how to read all logs
         */
        fun readAllLogs(): List<LogRecord> {
            val result = mutableListOf<LogRecord>()
            
            withCursor { cursor ->
                var batch: Array<LogRecord>?
                do {
                    batch = readBatch(cursor, 100)
                    batch?.let { result.addAll(it) }
                } while (batch != null && batch.isNotEmpty())
            }
            
            return result
        }
    }
    "#;

/// Generate a sample Kotlin interface class for using the JNI functions
pub fn generate_kotlin_interface() -> (s: String)
    ensures
        s@ == KOTLIN_INTERFACE@,
{
    KOTLIN_INTERFACE.to_owned()
}

} // verus!
